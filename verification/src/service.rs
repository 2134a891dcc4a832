//! The task service: public operations on tasks, lifecycle transitions, tag
//! management and suggestion responses, each with its exact outcome.
use vstd::prelude::*;

use crate::advisor::{create_rest_suggestion, fresh_suggestion, suggestions_after_insert};
use crate::domain::{
    AppError, EventType, Payload, Status, SuggestionStatus, Tag, Task, TaskTag, TimeEvent,
    TriggerType,
};
use crate::forest::{
    chain, grounded, grounded_at, has_task, idx_of, lemma_chain_add, lemma_chain_agree,
    lemma_chain_hits_tasks, lemma_chain_none_mono, lemma_chain_restrict, lemma_graph_unchanged,
    lemma_idx_unique, lemma_push_leaf, on_chain, parent_step, parents_exist, task_of, unique_ids,
};
use crate::store::{
    at_most_one_running, find_live_index, find_running_task, find_task_index, has_tag,
    last_event_of, latest_focus_spec, latest_focus_task, latest_event_index_of_task, live,
    live_task, Store,
};
use crate::textutil::{eq_ci, sanitize_tag, sanitize_title, trim_of, chars_eq_ci};

verus! {

/// Ceiling on the event log's length (kept far below `i64`'s range so that
/// counts derived from it always fit).
pub const MAX_LOG_LEN: u64 = 0x1000_0000_0000_0000;

/// The store has no headroom left for the ids or events one operation may
/// need; mutating operations then fail as the underlying storage would.
pub open spec fn spec_store_full(s: Store) -> bool {
    ||| s.next_task_id > u64::MAX - 2
    ||| s.next_tag_id > u64::MAX - 2
    ||| s.next_event_id > u64::MAX - 2
    ||| s.next_suggestion_id > u64::MAX - 2
    ||| s.events@.len() > MAX_LOG_LEN - 2
}

/// Runtime check for `spec_store_full`.
fn store_full(s: &Store) -> (r: bool)
    ensures
        r == spec_store_full(*s),
{
    s.next_task_id > u64::MAX - 2 || s.next_tag_id > u64::MAX - 2 || s.next_event_id > u64::MAX - 2
        || s.next_suggestion_id > u64::MAX - 2 || s.events.len() as u64 > MAX_LOG_LEN - 2
}

/// Archived task rows survive every operation unchanged.
pub open spec fn archived_preserved(s1: Seq<Task>, s2: Seq<Task>) -> bool {
    forall|i: int|
        0 <= i < s1.len() && (#[trigger] s1[i]).archived_at is Some ==> exists|j: int|
            0 <= j < s2.len() && #[trigger] s2[j] == s1[i]
}

/// When the rows only change in place (same length, archived rows untouched),
/// archived rows are preserved.
proof fn lemma_archived_preserved_pointwise(s1: Seq<Task>, s2: Seq<Task>)
    requires
        s2.len() >= s1.len(),
        forall|i: int|
            0 <= i < s1.len() && (#[trigger] s1[i]).archived_at is Some ==> s2[i] == s1[i],
    ensures
        archived_preserved(s1, s2),
{
    assert forall|i: int|
        0 <= i < s1.len() && (#[trigger] s1[i]).archived_at is Some implies exists|j: int|
        0 <= j < s2.len() && #[trigger] s2[j] == s1[i] by {
        assert(s2[i] == s1[i]);
    }
}

/// The event the store appends for one transition.
pub open spec fn made_event(
    id: u64,
    task_id: u64,
    event_type: EventType,
    ts: i64,
    payload: Option<Payload>,
    e: TimeEvent,
) -> bool {
    e.id == id && e.task_id == task_id && e.event_type == event_type && e.ts == ts && (match (
        e.payload,
        payload,
    ) {
        (Option::None, Option::None) => true,
        (Option::Some(a), Option::Some(b)) => a == b,
        _ => false,
    })
}

/// Appends one event to the log with the next fresh id.
fn append_event(
    s: &mut Store,
    task_id: u64,
    event_type: EventType,
    ts: i64,
    payload: Option<Payload>,
)
    requires
        old(s).inv(),
        has_task(old(s).tasks@, task_id),
        ts >= 0,
        old(s).next_event_id < u64::MAX,
        old(s).events@.len() < MAX_LOG_LEN,
    ensures
        final(s).inv(),
        final(s).events@.len() == old(s).events@.len() + 1,
        final(s).events@.subrange(0, old(s).events@.len() as int) == old(s).events@,
        final(s).events@.last().id == old(s).next_event_id,
        final(s).events@.last().task_id == task_id,
        final(s).events@.last().event_type == event_type,
        final(s).events@.last().ts == ts,
        final(s).events@.last().payload == payload,
        final(s).tasks == old(s).tasks,
        final(s).tags == old(s).tags,
        final(s).task_tags == old(s).task_tags,
        final(s).suggestions == old(s).suggestions,
        final(s).next_task_id == old(s).next_task_id,
        final(s).next_tag_id == old(s).next_tag_id,
        final(s).next_event_id == old(s).next_event_id + 1,
        final(s).next_suggestion_id == old(s).next_suggestion_id,
{
    let id = s.next_event_id;
    s.next_event_id = s.next_event_id + 1;
    s.events.push(TimeEvent { id, task_id, event_type, ts, payload });
    proof {
        assert(s.events@.subrange(0, s.events@.len() - 1) =~= old(s).events@);
    }
}

/// Creates a task: trims and validates the title, checks the parent, inserts
/// an idle row with a fresh id. No event is appended.
pub fn create_task(s: &mut Store, title: String, parent_id: Option<u64>, now: i64) -> (r: Result<
    u64,
    AppError,
>)
    requires
        old(s).inv(),
        now >= 0,
    ensures
        final(s).inv(),
        archived_preserved(old(s).tasks@, final(s).tasks@),
        match r {
            Ok(id) => {
                &&& trim_of(title@).len() > 0
                &&& match parent_id {
                    Option::Some(p) => live_task(old(s).tasks@, p),
                    Option::None => true,
                }
                &&& !spec_store_full(*old(s))
                &&& id == old(s).next_task_id
                &&& final(s).tasks@.len() == old(s).tasks@.len() + 1
                &&& final(s).tasks@.subrange(0, old(s).tasks@.len() as int) == old(s).tasks@
                &&& ({
                    let t = final(s).tasks@.last();
                    t.id == id && t.parent_id == parent_id && t.title@ == trim_of(title@)
                        && t.status == Status::Idle && t.created_at == now && t.archived_at is None
                })
                &&& final(s).next_task_id == old(s).next_task_id + 1
                &&& final(s).events == old(s).events
                &&& final(s).tags == old(s).tags
                &&& final(s).task_tags == old(s).task_tags
                &&& final(s).suggestions == old(s).suggestions
                &&& final(s).next_tag_id == old(s).next_tag_id
                &&& final(s).next_event_id == old(s).next_event_id
                &&& final(s).next_suggestion_id == old(s).next_suggestion_id
            },
            Err(e) => {
                &&& *final(s) == *old(s)
                &&& if trim_of(title@).len() == 0 {
                    e == AppError::InvalidInput
                } else if !(match parent_id {
                    Option::Some(p) => live_task(old(s).tasks@, p),
                    Option::None => true,
                }) {
                    e == (AppError::NotFound { id: parent_id->Some_0 })
                } else {
                    e == AppError::Storage && spec_store_full(*old(s))
                }
            },
        },
{
    let clean_title = match sanitize_title(title.as_str()) {
        Ok(t) => t,
        Err(e) => {
            return Err(e);
        },
    };
    match parent_id {
        Option::Some(p) => {
            if find_live_index(&s.tasks, p).is_none() {
                return Err(AppError::NotFound { id: p });
            }
        },
        Option::None => {},
    }
    if store_full(s) {
        return Err(AppError::Storage);
    }
    let id = s.next_task_id;
    s.next_task_id = s.next_task_id + 1;
    let task = Task {
        id,
        parent_id,
        title: clean_title,
        status: Status::Idle,
        created_at: now,
        archived_at: Option::None,
    };
    proof {
        assert forall|i: int| 0 <= i < s.tasks@.len() implies (#[trigger] s.tasks@[i]).id
            != task.id by {}
        if !has_task(s.tasks@, task.id) {
        }
        lemma_push_leaf(s.tasks@, s.tasks@.push(task), task);
        match parent_id {
            Option::Some(p) => {
                assert(live_task(s.tasks@, p));
            },
            Option::None => {},
        }
    }
    s.tasks.push(task);
    proof {
        assert(s.tasks@.subrange(0, s.tasks@.len() - 1) =~= old(s).tasks@);
        lemma_archived_preserved_pointwise(old(s).tasks@, s.tasks@);
        assert forall|i: int|
            0 <= i < s.tasks@.len() && live(#[trigger] s.tasks@[i]) implies match s.tasks@[i].parent_id {
            Option::Some(p) => live_task(s.tasks@, p),
            Option::None => true,
        } by {
            if i < s.tasks@.len() - 1 {
                match s.tasks@[i].parent_id {
                    Option::Some(p) => {
                        if live(s.tasks@[i]) {
                            assert(live_task(old(s).tasks@, p));
                            lemma_idx_unique(old(s).tasks@, p, idx_of(old(s).tasks@, p));
                            lemma_idx_unique(s.tasks@, p, idx_of(old(s).tasks@, p));
                        }
                    },
                    Option::None => {},
                }
            } else {
                match s.tasks@[i].parent_id {
                    Option::Some(p) => {
                        lemma_idx_unique(old(s).tasks@, p, idx_of(old(s).tasks@, p));
                        lemma_idx_unique(s.tasks@, p, idx_of(old(s).tasks@, p));
                    },
                    Option::None => {},
                }
            }
        }
        assert(at_most_one_running(s.tasks@));
        assert forall|i: int|
            0 <= i < s.events@.len() implies has_task(
            s.tasks@,
            (#[trigger] s.events@[i]).task_id,
        ) by {
            assert(has_task(old(s).tasks@, s.events@[i].task_id));
            let k = idx_of(old(s).tasks@, s.events@[i].task_id);
            assert(s.tasks@[k].id == s.events@[i].task_id);
        }
        assert forall|i: int|
            0 <= i < s.task_tags@.len() implies has_task(
            s.tasks@,
            (#[trigger] s.task_tags@[i]).task_id,
        ) && has_tag(s.tags@, s.task_tags@[i].tag_id) by {
            let k = idx_of(old(s).tasks@, s.task_tags@[i].task_id);
            assert(s.tasks@[k].id == s.task_tags@[i].task_id);
        }
        assert forall|i: int|
            0 <= i < s.suggestions@.len() implies match (#[trigger] s.suggestions@[i]).task_id {
            Option::Some(t) => has_task(s.tasks@, t),
            Option::None => true,
        } by {
            match s.suggestions@[i].task_id {
                Option::Some(t) => {
                    let k = idx_of(old(s).tasks@, t);
                    assert(s.tasks@[k].id == t);
                },
                Option::None => {},
            }
        }
    }
    Ok(id)
}

/// Renames a task: the task must exist and not be archived, and the trimmed
/// title must be non-empty. No event is appended.
pub fn rename_task(s: &mut Store, task_id: u64, title: String) -> (r: Result<(), AppError>)
    requires
        old(s).inv(),
    ensures
        final(s).inv(),
        archived_preserved(old(s).tasks@, final(s).tasks@),
        match r {
            Ok(()) => {
                &&& live_task(old(s).tasks@, task_id)
                &&& trim_of(title@).len() > 0
                &&& final(s).tasks@.len() == old(s).tasks@.len()
                &&& ({
                    let i = idx_of(old(s).tasks@, task_id);
                    &&& forall|j: int|
                        0 <= j < old(s).tasks@.len() && j != i ==> final(s).tasks@[j] == old(
                            s,
                        ).tasks@[j]
                    &&& ({
                        let t0 = old(s).tasks@[i];
                        let t1 = final(s).tasks@[i];
                        t1.id == t0.id && t1.parent_id == t0.parent_id && t1.title@ == trim_of(
                            title@,
                        ) && t1.status == t0.status && t1.created_at == t0.created_at
                            && t1.archived_at == t0.archived_at
                    })
                })
                &&& final(s).events == old(s).events
                &&& final(s).tags == old(s).tags
                &&& final(s).task_tags == old(s).task_tags
                &&& final(s).suggestions == old(s).suggestions
                &&& final(s).next_task_id == old(s).next_task_id
                &&& final(s).next_tag_id == old(s).next_tag_id
                &&& final(s).next_event_id == old(s).next_event_id
                &&& final(s).next_suggestion_id == old(s).next_suggestion_id
            },
            Err(e) => {
                &&& *final(s) == *old(s)
                &&& if !live_task(old(s).tasks@, task_id) {
                    e == (AppError::NotFound { id: task_id })
                } else {
                    e == AppError::InvalidInput && trim_of(title@).len() == 0
                }
            },
        },
{
    let i = match find_live_index(&s.tasks, task_id) {
        Option::Some(i) => i,
        Option::None => {
            return Err(AppError::NotFound { id: task_id });
        },
    };
    let clean_title = match sanitize_title(title.as_str()) {
        Ok(t) => t,
        Err(e) => {
            return Err(e);
        },
    };
    let ghost before = s.tasks@;
    let row = &mut s.tasks[i];
    row.title = clean_title;
    proof {
        lemma_graph_unchanged(before, s.tasks@);
        lemma_archived_preserved_pointwise(before, s.tasks@);
        assert forall|k: int|
            0 <= k < s.tasks@.len() && live(#[trigger] s.tasks@[k]) implies match s.tasks@[k].parent_id {
            Option::Some(p) => live_task(s.tasks@, p),
            Option::None => true,
        } by {
            match s.tasks@[k].parent_id {
                Option::Some(p) => {
                    if live(s.tasks@[k]) {
                        assert(live(before[k]));
                        assert(live_task(before, p));
                        assert(idx_of(s.tasks@, p) == idx_of(before, p));
                    }
                },
                Option::None => {},
            }
        }
    }
    Ok(())
}

/// What one suggestion row looks like after a response aimed at id `wanted`:
/// the pending row with that id becomes accepted or ignored with the response
/// time recorded; every other row is unchanged.
pub open spec fn respond_outcome(
    row: crate::domain::RestSuggestionRecord,
    wanted: u64,
    accept: bool,
    now: i64,
) -> crate::domain::RestSuggestionRecord {
    if row.id == wanted && row.status == SuggestionStatus::Pending {
        crate::domain::RestSuggestionRecord {
            status: if accept {
                SuggestionStatus::Accepted
            } else {
                SuggestionStatus::Ignored
            },
            responded_at: Option::Some(now),
            ..row
        }
    } else {
        row
    }
}

/// Responds to a rest suggestion: a pending row becomes accepted or ignored
/// with the response time recorded; an already-responded row is left alone; an
/// unknown id is an error, as is a non-positive one.
pub fn respond_rest_suggestion(s: &mut Store, suggestion_id: i64, accept: bool, now: i64) -> (r:
    Result<(), AppError>)
    requires
        old(s).inv(),
    ensures
        final(s).inv(),
        final(s).tasks == old(s).tasks,
        final(s).events == old(s).events,
        final(s).tags == old(s).tags,
        final(s).task_tags == old(s).task_tags,
        match r {
            Ok(()) => {
                &&& suggestion_id > 0
                &&& exists|i: int|
                    0 <= i < old(s).suggestions@.len() && (#[trigger] old(s).suggestions@[i]).id
                        == suggestion_id as u64
                &&& final(s).suggestions@.len() == old(s).suggestions@.len()
                &&& (forall|j: int|
                    0 <= j < old(s).suggestions@.len() ==> #[trigger] final(s).suggestions@[j]
                        == respond_outcome(
                        old(s).suggestions@[j],
                        suggestion_id as u64,
                        accept,
                        now,
                    ))
            },
            Err(e) => {
                &&& *final(s) == *old(s)
                &&& if suggestion_id <= 0 {
                    e == AppError::InvalidInput
                } else {
                    e == (AppError::NotFound { id: suggestion_id as u64 }) && forall|i: int|
                        0 <= i < old(s).suggestions@.len() ==> (#[trigger] old(
                            s,
                        ).suggestions@[i]).id != suggestion_id as u64
                }
            },
        },
{
    if suggestion_id <= 0 {
        return Err(AppError::InvalidInput);
    }
    let wanted = suggestion_id as u64;
    let ghost before = s.suggestions@;
    let mut i: usize = 0;
    while i < s.suggestions.len()
        invariant
            old(s).inv(),
            *s == *old(s),
            suggestion_id > 0,
            wanted == suggestion_id as u64,
            0 <= i <= s.suggestions@.len(),
            before == s.suggestions@,
            forall|j: int| 0 <= j < i ==> (#[trigger] before[j]).id != wanted,
        decreases s.suggestions@.len() - i,
    {
        if s.suggestions[i].id == wanted {
            let pending = match s.suggestions[i].status {
                SuggestionStatus::Pending => true,
                _ => false,
            };
            if pending {
                let row = &mut s.suggestions[i];
                row.status = if accept {
                    SuggestionStatus::Accepted
                } else {
                    SuggestionStatus::Ignored
                };
                row.responded_at = Option::Some(now);
            }
            proof {
                assert(0 <= i < before.len() && before[i as int].id == wanted);
                assert forall|j: int|
                    0 <= j < before.len() && (#[trigger] before[j]).id == wanted implies j
                    == i as int by {
                    if j < i as int {
                        assert(old(s).suggestions@[j].id < old(s).suggestions@[i as int].id);
                    } else if j > i as int {
                        assert(old(s).suggestions@[i as int].id < old(s).suggestions@[j].id);
                    }
                }
                assert forall|a: int, b: int|
                    0 <= a < b < s.suggestions@.len() implies s.suggestions@[a].id
                    < s.suggestions@[b].id by {
                    assert(old(s).suggestions@[a].id < old(s).suggestions@[b].id);
                }
                assert forall|a: int, b: int|
                    0 <= a < b < s.suggestions@.len() implies !(s.suggestions@[a].status
                    == SuggestionStatus::Pending && s.suggestions@[b].status
                    == SuggestionStatus::Pending) by {
                    assert(!(old(s).suggestions@[a].status == SuggestionStatus::Pending && old(
                        s,
                    ).suggestions@[b].status == SuggestionStatus::Pending));
                }
                assert(s.suggestions@.len() == old(s).suggestions@.len());
                assert(old(s).suggestions@[i as int].id == suggestion_id as u64);
                assert(exists|k: int|
                    0 <= k < old(s).suggestions@.len() && (#[trigger] old(s).suggestions@[k]).id
                        == suggestion_id as u64);
                assert forall|j: int| 0 <= j < old(s).suggestions@.len() implies #[trigger] s
                    .suggestions@[j] == respond_outcome(
                    old(s).suggestions@[j],
                    wanted as u64,
                    accept,
                    now,
                ) by {
                    if j == i as int {
                    } else {
                        assert(before[j].id != wanted);
                        assert(s.suggestions@[j] == before[j]);
                    }
                }
            }
            return Ok(());
        }
        i = i + 1;
    }
    Err(AppError::NotFound { id: wanted })
}

/// Pauses a running task; pausing an already paused task is a no-op, anything
/// else is rejected.
pub fn pause_task(s: &mut Store, task_id: u64, now: i64) -> (r: Result<(), AppError>)
    requires
        old(s).inv(),
        now >= 0,
    ensures
        final(s).inv(),
        archived_preserved(old(s).tasks@, final(s).tasks@),
        match r {
            Ok(()) => {
                &&& live_task(old(s).tasks@, task_id)
                &&& if task_of(old(s).tasks@, task_id).status == Status::Paused {
                    *final(s) == *old(s)
                } else {
                    &&& task_of(old(s).tasks@, task_id).status == Status::Running
                    &&& !spec_store_full(*old(s))
                    &&& status_transitioned(
                        old(s).tasks@,
                        final(s).tasks@,
                        task_id,
                        Status::Paused,
                    )
                    &&& one_event_appended(
                        *old(s),
                        *final(s),
                        task_id,
                        EventType::Pause,
                        now,
                        Option::None,
                    )
                    &&& final(s).suggestions == old(s).suggestions
                    &&& final(s).next_suggestion_id == old(s).next_suggestion_id
                    &&& unchanged_tags(*old(s), *final(s))
                }
            },
            Err(e) => {
                &&& *final(s) == *old(s)
                &&& if !live_task(old(s).tasks@, task_id) {
                    e == (AppError::NotFound { id: task_id })
                } else if task_of(old(s).tasks@, task_id).status != Status::Running && task_of(
                    old(s).tasks@,
                    task_id,
                ).status != Status::Paused {
                    e == AppError::InvalidState
                } else {
                    e == AppError::Storage && spec_store_full(*old(s))
                }
            },
        },
{
    let i = match find_live_index(&s.tasks, task_id) {
        Option::Some(i) => i,
        Option::None => {
            return Err(AppError::NotFound { id: task_id });
        },
    };
    match s.tasks[i].status {
        Status::Paused => {
            return Ok(());
        },
        Status::Running => {},
        _ => {
            return Err(AppError::InvalidState);
        },
    }
    if store_full(s) {
        return Err(AppError::Storage);
    }
    set_status(s, i, Status::Paused);
    proof {
        assert(s.tasks@[i as int].id == task_id);
        assert(has_task(s.tasks@, task_id));
        lemma_archived_preserved_pointwise(old(s).tasks@, s.tasks@);
    }
    append_event(s, task_id, EventType::Pause, now, Option::None);
    Ok(())
}

/// The tag tables are unchanged.
pub open spec fn unchanged_tags(s1: Store, s2: Store) -> bool {
    s2.tags == s1.tags && s2.task_tags == s1.task_tags && s2.next_tag_id == s1.next_tag_id
        && s2.next_task_id == s1.next_task_id
}

/// Exactly the status of `task_id` changed, to `st`.
pub open spec fn status_transitioned(s1: Seq<Task>, s2: Seq<Task>, task_id: u64, st: Status) -> bool {
    let i = idx_of(s1, task_id);
    &&& s2.len() == s1.len()
    &&& forall|j: int| 0 <= j < s1.len() && j != i ==> s2[j] == s1[j]
    &&& s2[i] == (Task { status: st, ..s1[i] })
}

/// Exactly one event was appended to the log, with the given shape.
pub open spec fn one_event_appended(
    s1: Store,
    s2: Store,
    task_id: u64,
    event_type: EventType,
    ts: i64,
    payload: Option<Payload>,
) -> bool {
    &&& s2.events@.len() == s1.events@.len() + 1
    &&& s2.events@.subrange(0, s1.events@.len() as int) == s1.events@
    &&& made_event(s1.next_event_id, task_id, event_type, ts, payload, s2.events@.last())
    &&& s2.next_event_id == s1.next_event_id + 1
}

/// Updates one task's status in place, preserving the store invariant except
/// for the single-running rule, which the caller re-establishes.
fn set_status(s: &mut Store, i: usize, st: Status)
    requires
        old(s).inv(),
        i < old(s).tasks@.len(),
        live(old(s).tasks@[i as int]),
        st == Status::Running ==> forall|j: int|
            0 <= j < old(s).tasks@.len() && j != i && live(#[trigger] old(s).tasks@[j]) ==> old(
                s,
            ).tasks@[j].status != Status::Running,
    ensures
        final(s).inv(),
        final(s).tasks@ == old(s).tasks@.update(
            i as int,
            Task { status: st, ..old(s).tasks@[i as int] },
        ),
        final(s).events == old(s).events,
        final(s).tags == old(s).tags,
        final(s).task_tags == old(s).task_tags,
        final(s).suggestions == old(s).suggestions,
        final(s).next_task_id == old(s).next_task_id,
        final(s).next_tag_id == old(s).next_tag_id,
        final(s).next_event_id == old(s).next_event_id,
        final(s).next_suggestion_id == old(s).next_suggestion_id,
{
    let ghost before = s.tasks@;
    let row = &mut s.tasks[i];
    row.status = st;
    proof {
        lemma_graph_unchanged(before, s.tasks@);
        lemma_archived_preserved_pointwise(before, s.tasks@);
        assert forall|k: int|
            0 <= k < s.tasks@.len() && live(#[trigger] s.tasks@[k]) implies match s.tasks@[k].parent_id {
            Option::Some(p) => live_task(s.tasks@, p),
            Option::None => true,
        } by {
            match s.tasks@[k].parent_id {
                Option::Some(p) => {
                    if live(s.tasks@[k]) {
                        assert(live(before[k]));
                        assert(live_task(before, p));
                        assert(idx_of(s.tasks@, p) == idx_of(before, p));
                    }
                },
                Option::None => {},
            }
        }
        assert forall|a: int, b: int|
            0 <= a < s.tasks@.len() && 0 <= b < s.tasks@.len() && live(s.tasks@[a]) && live(
                s.tasks@[b],
            ) && s.tasks@[a].status == Status::Running && s.tasks@[b].status == Status::Running implies a
            == b by {
            if a != i as int && b != i as int {
                assert(at_most_one_running(before));
            }
        }
        assert forall|k: int|
            0 <= k < s.events@.len() implies has_task(
            s.tasks@,
            (#[trigger] s.events@[k]).task_id,
        ) by {
            assert(has_task(before, s.events@[k].task_id));
        }
        assert forall|k: int|
            0 <= k < s.task_tags@.len() implies has_task(
            s.tasks@,
            (#[trigger] s.task_tags@[k]).task_id,
        ) && has_tag(s.tags@, s.task_tags@[k].tag_id) by {
            assert(has_task(before, s.task_tags@[k].task_id));
        }
        assert forall|k: int|
            0 <= k < s.suggestions@.len() implies match (#[trigger] s.suggestions@[k]).task_id {
            Option::Some(t) => has_task(s.tasks@, t),
            Option::None => true,
        } by {
            match s.suggestions@[k].task_id {
                Option::Some(t) => {
                    assert(has_task(before, t));
                },
                Option::None => {},
            }
        }
    }
}

/// A start or resume of `task_id` counts as a task switch when the latest
/// focus event belongs to a different task.
pub open spec fn switch_fired(events: Seq<TimeEvent>, task_id: u64) -> bool {
    match latest_focus_spec(events) {
        Option::Some(p) => p != task_id,
        Option::None => false,
    }
}

/// Fires the task-switch advisor when the focus moved from another task.
fn maybe_create_task_switch_suggestion(
    s: &mut Store,
    previous_focus_task: Option<u64>,
    current_task_id: u64,
    ts: i64,
)
    requires
        old(s).inv(),
        ts >= 0,
        match previous_focus_task {
            Option::Some(p) => has_task(old(s).tasks@, p),
            Option::None => true,
        },
        old(s).next_suggestion_id < u64::MAX,
    ensures
        final(s).inv(),
        final(s).tasks == old(s).tasks,
        final(s).tags == old(s).tags,
        final(s).task_tags == old(s).task_tags,
        final(s).events == old(s).events,
        final(s).next_task_id == old(s).next_task_id,
        final(s).next_tag_id == old(s).next_tag_id,
        final(s).next_event_id == old(s).next_event_id,
        ({
            let fires = match previous_focus_task {
                Option::Some(p) => p != current_task_id,
                Option::None => false,
            };
            if fires {
                &&& suggestions_after_insert(old(s).suggestions@, final(s).suggestions@, ts)
                &&& fresh_suggestion(
                    final(s).suggestions@.last(),
                    old(s).events@,
                    TriggerType::TaskSwitch,
                    previous_focus_task,
                    ts,
                    old(s).next_suggestion_id,
                )
                &&& final(s).next_suggestion_id == old(s).next_suggestion_id + 1
            } else {
                *final(s) == *old(s)
            }
        }),
{
    match previous_focus_task {
        Option::Some(previous_task_id) => {
            if previous_task_id != current_task_id {
                let _ = create_rest_suggestion(
                    s,
                    TriggerType::TaskSwitch,
                    Option::Some(previous_task_id),
                    ts,
                );
            }
        },
        Option::None => {},
    }
}

/// Starts a task: a running task is a no-op, a paused one must be resumed
/// instead, and no other task may be running. Appends a `start` event and may
/// fire the task-switch advisor.
pub fn start_task(s: &mut Store, task_id: u64, now: i64) -> (r: Result<(), AppError>)
    requires
        old(s).inv(),
        now >= 0,
    ensures
        final(s).inv(),
        archived_preserved(old(s).tasks@, final(s).tasks@),
        match r {
            Ok(()) => {
                &&& live_task(old(s).tasks@, task_id)
                &&& if task_of(old(s).tasks@, task_id).status == Status::Running {
                    *final(s) == *old(s)
                } else {
                    &&& task_of(old(s).tasks@, task_id).status != Status::Paused
                    &&& (forall|j: int|
                        0 <= j < old(s).tasks@.len() && live(#[trigger] old(s).tasks@[j]) && old(
                            s,
                        ).tasks@[j].status == Status::Running ==> old(s).tasks@[j].id == task_id)
                    &&& !spec_store_full(*old(s))
                    &&& status_transitioned(
                        old(s).tasks@,
                        final(s).tasks@,
                        task_id,
                        Status::Running,
                    )
                    &&& one_event_appended(
                        *old(s),
                        *final(s),
                        task_id,
                        EventType::Start,
                        now,
                        Option::None,
                    )
                    &&& unchanged_tags(*old(s), *final(s))
                    &&& if switch_fired(old(s).events@, task_id) {
                        &&& suggestions_after_insert(
                            old(s).suggestions@,
                            final(s).suggestions@,
                            now,
                        )
                        &&& fresh_suggestion(
                            final(s).suggestions@.last(),
                            final(s).events@,
                            TriggerType::TaskSwitch,
                            Option::Some(latest_focus_spec(old(s).events@)->Some_0),
                            now,
                            old(s).next_suggestion_id,
                        )
                        &&& final(s).next_suggestion_id == old(s).next_suggestion_id + 1
                    } else {
                        final(s).suggestions == old(s).suggestions && final(s).next_suggestion_id
                            == old(s).next_suggestion_id
                    }
                }
            },
            Err(e) => {
                &&& *final(s) == *old(s)
                &&& if !live_task(old(s).tasks@, task_id) {
                    e == (AppError::NotFound { id: task_id })
                } else if task_of(old(s).tasks@, task_id).status == Status::Paused {
                    e == AppError::InvalidState
                } else if (exists|j: int|
                    0 <= j < old(s).tasks@.len() && live(#[trigger] old(s).tasks@[j]) && old(
                        s,
                    ).tasks@[j].status == Status::Running && old(s).tasks@[j].id != task_id) {
                    e matches AppError::Conflict { task_id: o, status: st } && st == Status::Running
                        && o != task_id && live_task(old(s).tasks@, o) && task_of(
                        old(s).tasks@,
                        o,
                    ).status == Status::Running
                } else {
                    e == AppError::Storage && spec_store_full(*old(s))
                }
            },
        },
{
    let previous_focus_task = latest_focus_task(&s.events);
    let i = match find_live_index(&s.tasks, task_id) {
        Option::Some(i) => i,
        Option::None => {
            return Err(AppError::NotFound { id: task_id });
        },
    };
    match s.tasks[i].status {
        Status::Running => {
            return Ok(());
        },
        Status::Paused => {
            return Err(AppError::InvalidState);
        },
        _ => {},
    }
    match find_running_task(&s.tasks) {
        Option::Some(active_task_id) => {
            if active_task_id != task_id {
                proof {
                    let j = choose|j: int|
                        0 <= j < s.tasks@.len() && (#[trigger] s.tasks@[j]).id == active_task_id
                            && live(s.tasks@[j]) && s.tasks@[j].status == Status::Running;
                    lemma_idx_unique(s.tasks@, active_task_id, j);
                }
                return Err(
                    AppError::Conflict { task_id: active_task_id, status: Status::Running },
                );
            }
            proof {
                let j = choose|j: int|
                    0 <= j < s.tasks@.len() && (#[trigger] s.tasks@[j]).id == active_task_id
                        && live(s.tasks@[j]) && s.tasks@[j].status == Status::Running;
                assert(s.tasks@[j].id == s.tasks@[i as int].id);
                if j != i as int {
                    assert(s.tasks@[j].id != s.tasks@[i as int].id);
                }
            }
        },
        Option::None => {},
    }
    if store_full(s) {
        return Err(AppError::Storage);
    }
    set_status(s, i, Status::Running);
    proof {
        assert(s.tasks@[i as int].id == task_id);
        assert(has_task(s.tasks@, task_id));
        lemma_archived_preserved_pointwise(old(s).tasks@, s.tasks@);
    }
    append_event(s, task_id, EventType::Start, now, Option::None);
    proof {
        crate::store::lemma_focus_best_member(old(s).events@);
        match latest_focus_spec(old(s).events@) {
            Option::Some(p) => {
                let e = crate::store::focus_best(old(s).events@)->Some_0;
                let k = choose|k: int|
                    0 <= k < old(s).events@.len() && old(s).events@[k] == e;
                assert(has_task(old(s).tasks@, p));
                let m = idx_of(old(s).tasks@, p);
                assert(s.tasks@[m].id == p);
                assert(has_task(s.tasks@, p));
            },
            Option::None => {},
        }
    }
    maybe_create_task_switch_suggestion(s, previous_focus_task, task_id, now);
    Ok(())
}

/// Resumes a paused task: a running task is a no-op, anything not paused is
/// rejected, and no other task may be running. Appends a `resume` event and
/// may fire the task-switch advisor.
pub fn resume_task(s: &mut Store, task_id: u64, now: i64) -> (r: Result<(), AppError>)
    requires
        old(s).inv(),
        now >= 0,
    ensures
        final(s).inv(),
        archived_preserved(old(s).tasks@, final(s).tasks@),
        match r {
            Ok(()) => {
                &&& live_task(old(s).tasks@, task_id)
                &&& if task_of(old(s).tasks@, task_id).status == Status::Running {
                    *final(s) == *old(s)
                } else {
                    &&& task_of(old(s).tasks@, task_id).status == Status::Paused
                    &&& (forall|j: int|
                        0 <= j < old(s).tasks@.len() && live(#[trigger] old(s).tasks@[j]) && old(
                            s,
                        ).tasks@[j].status == Status::Running ==> old(s).tasks@[j].id == task_id)
                    &&& !spec_store_full(*old(s))
                    &&& status_transitioned(
                        old(s).tasks@,
                        final(s).tasks@,
                        task_id,
                        Status::Running,
                    )
                    &&& one_event_appended(
                        *old(s),
                        *final(s),
                        task_id,
                        EventType::Resume,
                        now,
                        Option::None,
                    )
                    &&& unchanged_tags(*old(s), *final(s))
                    &&& if switch_fired(old(s).events@, task_id) {
                        &&& suggestions_after_insert(
                            old(s).suggestions@,
                            final(s).suggestions@,
                            now,
                        )
                        &&& fresh_suggestion(
                            final(s).suggestions@.last(),
                            final(s).events@,
                            TriggerType::TaskSwitch,
                            Option::Some(latest_focus_spec(old(s).events@)->Some_0),
                            now,
                            old(s).next_suggestion_id,
                        )
                        &&& final(s).next_suggestion_id == old(s).next_suggestion_id + 1
                    } else {
                        final(s).suggestions == old(s).suggestions && final(s).next_suggestion_id
                            == old(s).next_suggestion_id
                    }
                }
            },
            Err(e) => {
                &&& *final(s) == *old(s)
                &&& if !live_task(old(s).tasks@, task_id) {
                    e == (AppError::NotFound { id: task_id })
                } else if task_of(old(s).tasks@, task_id).status != Status::Paused && task_of(
                    old(s).tasks@,
                    task_id,
                ).status != Status::Running {
                    e == AppError::InvalidState
                } else if (exists|j: int|
                    0 <= j < old(s).tasks@.len() && live(#[trigger] old(s).tasks@[j]) && old(
                        s,
                    ).tasks@[j].status == Status::Running && old(s).tasks@[j].id != task_id) {
                    e matches AppError::Conflict { task_id: o, status: st } && st == Status::Running
                        && o != task_id && live_task(old(s).tasks@, o) && task_of(
                        old(s).tasks@,
                        o,
                    ).status == Status::Running
                } else {
                    e == AppError::Storage && spec_store_full(*old(s))
                }
            },
        },
{
    let previous_focus_task = latest_focus_task(&s.events);
    let i = match find_live_index(&s.tasks, task_id) {
        Option::Some(i) => i,
        Option::None => {
            return Err(AppError::NotFound { id: task_id });
        },
    };
    match s.tasks[i].status {
        Status::Running => {
            return Ok(());
        },
        Status::Paused => {},
        _ => {
            return Err(AppError::InvalidState);
        },
    }
    match find_running_task(&s.tasks) {
        Option::Some(active_task_id) => {
            if active_task_id != task_id {
                proof {
                    let j = choose|j: int|
                        0 <= j < s.tasks@.len() && (#[trigger] s.tasks@[j]).id == active_task_id
                            && live(s.tasks@[j]) && s.tasks@[j].status == Status::Running;
                    lemma_idx_unique(s.tasks@, active_task_id, j);
                }
                return Err(
                    AppError::Conflict { task_id: active_task_id, status: Status::Running },
                );
            }
            proof {
                let j = choose|j: int|
                    0 <= j < s.tasks@.len() && (#[trigger] s.tasks@[j]).id == active_task_id
                        && live(s.tasks@[j]) && s.tasks@[j].status == Status::Running;
                assert(s.tasks@[j].id == s.tasks@[i as int].id);
                if j != i as int {
                    assert(s.tasks@[j].id != s.tasks@[i as int].id);
                }
            }
        },
        Option::None => {},
    }
    if store_full(s) {
        return Err(AppError::Storage);
    }
    set_status(s, i, Status::Running);
    proof {
        assert(s.tasks@[i as int].id == task_id);
        assert(has_task(s.tasks@, task_id));
        lemma_archived_preserved_pointwise(old(s).tasks@, s.tasks@);
    }
    append_event(s, task_id, EventType::Resume, now, Option::None);
    proof {
        crate::store::lemma_focus_best_member(old(s).events@);
        match latest_focus_spec(old(s).events@) {
            Option::Some(p) => {
                let e = crate::store::focus_best(old(s).events@)->Some_0;
                let k = choose|k: int|
                    0 <= k < old(s).events@.len() && old(s).events@[k] == e;
                assert(has_task(old(s).tasks@, p));
                let m = idx_of(old(s).tasks@, p);
                assert(s.tasks@[m].id == p);
                assert(has_task(s.tasks@, p));
            },
            Option::None => {},
        }
    }
    maybe_create_task_switch_suggestion(s, previous_focus_task, task_id, now);
    Ok(())
}

/// The auto-resume condition: the parent exists, is paused, its most recent
/// event is the pause that inserted exactly this child, and nothing is
/// running.
pub open spec fn auto_resume_fires(
    tasks: Seq<Task>,
    events: Seq<TimeEvent>,
    parent: u64,
    child: u64,
) -> bool {
    &&& live_task(tasks, parent)
    &&& task_of(tasks, parent).status == Status::Paused
    &&& match last_event_of(events, parent) {
        Option::Some(e) => e.event_type == EventType::Pause && match e.payload {
            Option::Some(Payload::SubtaskPause { child_id }) => child_id == child,
            _ => false,
        },
        Option::None => false,
    }
    &&& forall|j: int|
        0 <= j < tasks.len() ==> !(live(#[trigger] tasks[j]) && tasks[j].status == Status::Running)
}

/// Runs the auto-resume check for a stopped child: when it fires, the parent
/// goes back to running and a `resume` event recording the child is appended.
fn maybe_auto_resume_parent(s: &mut Store, parent_task_id: u64, child_task_id: u64, ts: i64) -> (fired:
    bool)
    requires
        old(s).inv(),
        ts >= 0,
        old(s).next_event_id < u64::MAX,
        old(s).events@.len() < MAX_LOG_LEN,
    ensures
        final(s).inv(),
        archived_preserved(old(s).tasks@, final(s).tasks@),
        fired == auto_resume_fires(old(s).tasks@, old(s).events@, parent_task_id, child_task_id),
        if fired {
            &&& status_transitioned(old(s).tasks@, final(s).tasks@, parent_task_id, Status::Running)
            &&& one_event_appended(
                *old(s),
                *final(s),
                parent_task_id,
                EventType::Resume,
                ts,
                Option::Some(Payload::ChildStopped { child_id: child_task_id }),
            )
            &&& final(s).suggestions == old(s).suggestions
            &&& final(s).next_suggestion_id == old(s).next_suggestion_id
            &&& unchanged_tags(*old(s), *final(s))
        } else {
            *final(s) == *old(s)
        },
{
    let pi = match find_live_index(&s.tasks, parent_task_id) {
        Option::Some(pi) => pi,
        Option::None => {
            return false;
        },
    };
    match s.tasks[pi].status {
        Status::Paused => {},
        _ => {
            return false;
        },
    }
    let ei = match latest_event_index_of_task(&s.events, parent_task_id) {
        Option::Some(ei) => ei,
        Option::None => {
            return false;
        },
    };
    let matches_child = match s.events[ei].event_type {
        EventType::Pause => {
            match &s.events[ei].payload {
                Option::Some(Payload::SubtaskPause { child_id }) => *child_id == child_task_id,
                _ => false,
            }
        },
        _ => false,
    };
    if !matches_child {
        return false;
    }
    if find_running_task(&s.tasks).is_some() {
        proof {
            let j = choose|j: int|
                0 <= j < s.tasks@.len() && live(#[trigger] s.tasks@[j]) && s.tasks@[j].status
                    == Status::Running;
        }
        return false;
    }
    set_status(s, pi, Status::Running);
    proof {
        assert(s.tasks@[pi as int].id == parent_task_id);
        assert(has_task(s.tasks@, parent_task_id));
        lemma_archived_preserved_pointwise(old(s).tasks@, s.tasks@);
    }
    append_event(
        s,
        parent_task_id,
        EventType::Resume,
        ts,
        Option::Some(Payload::ChildStopped { child_id: child_task_id }),
    );
    proof {
        assert(s.events@.last() == (TimeEvent {
            id: old(s).next_event_id,
            task_id: parent_task_id,
            event_type: EventType::Resume,
            ts,
            payload: Option::Some(Payload::ChildStopped { child_id: child_task_id }),
        }));
    }
    true
}

/// Stops a running or paused task: a stopped task is a no-op, an idle one is
/// rejected. Appends a `stop` event, runs the auto-resume check for the
/// parent, and fires the subtask-end advisor when the parent resumed.
#[verifier::rlimit(100)]
pub fn stop_task(s: &mut Store, task_id: u64, now: i64) -> (r: Result<(), AppError>)
    requires
        old(s).inv(),
        now >= 0,
    ensures
        final(s).inv(),
        archived_preserved(old(s).tasks@, final(s).tasks@),
        match r {
            Ok(()) => {
                &&& live_task(old(s).tasks@, task_id)
                &&& if task_of(old(s).tasks@, task_id).status == Status::Stopped {
                    *final(s) == *old(s)
                } else {
                    let i = idx_of(old(s).tasks@, task_id);
                    let stop_ev = TimeEvent {
                        id: old(s).next_event_id,
                        task_id,
                        event_type: EventType::Stop,
                        ts: now,
                        payload: Option::None,
                    };
                    let mid_tasks = old(s).tasks@.update(
                        i,
                        Task { status: Status::Stopped, ..old(s).tasks@[i] },
                    );
                    let mid_events = old(s).events@.push(stop_ev);
                    let fired = match old(s).tasks@[i].parent_id {
                        Option::Some(p) => auto_resume_fires(mid_tasks, mid_events, p, task_id),
                        Option::None => false,
                    };
                    &&& task_of(old(s).tasks@, task_id).status == Status::Running || task_of(
                        old(s).tasks@,
                        task_id,
                    ).status == Status::Paused
                    &&& !spec_store_full(*old(s))
                    &&& unchanged_tags(*old(s), *final(s))
                    &&& if fired {
                        let p = old(s).tasks@[i].parent_id->Some_0;
                        &&& status_transitioned(mid_tasks, final(s).tasks@, p, Status::Running)
                        &&& final(s).events@.len() == old(s).events@.len() + 2
                        &&& final(s).events@.subrange(0, old(s).events@.len() as int) == old(
                            s,
                        ).events@
                        &&& final(s).events@[old(s).events@.len() as int] == stop_ev
                        &&& made_event(
                            (old(s).next_event_id + 1) as u64,
                            p,
                            EventType::Resume,
                            now,
                            Option::Some(Payload::ChildStopped { child_id: task_id }),
                            final(s).events@.last(),
                        )
                        &&& final(s).next_event_id == old(s).next_event_id + 2
                        &&& suggestions_after_insert(
                            old(s).suggestions@,
                            final(s).suggestions@,
                            now,
                        )
                        &&& fresh_suggestion(
                            final(s).suggestions@.last(),
                            final(s).events@,
                            TriggerType::SubtaskEnd,
                            Option::Some(task_id),
                            now,
                            old(s).next_suggestion_id,
                        )
                        &&& final(s).next_suggestion_id == old(s).next_suggestion_id + 1
                    } else {
                        &&& final(s).tasks@ == mid_tasks
                        &&& one_event_appended(
                            *old(s),
                            *final(s),
                            task_id,
                            EventType::Stop,
                            now,
                            Option::None,
                        )
                        &&& final(s).suggestions == old(s).suggestions
                        &&& final(s).next_suggestion_id == old(s).next_suggestion_id
                    }
                }
            },
            Err(e) => {
                &&& *final(s) == *old(s)
                &&& if !live_task(old(s).tasks@, task_id) {
                    e == (AppError::NotFound { id: task_id })
                } else if task_of(old(s).tasks@, task_id).status == Status::Idle {
                    e == AppError::InvalidState
                } else {
                    e == AppError::Storage && spec_store_full(*old(s))
                }
            },
        },
{
    let i = match find_live_index(&s.tasks, task_id) {
        Option::Some(i) => i,
        Option::None => {
            return Err(AppError::NotFound { id: task_id });
        },
    };
    match s.tasks[i].status {
        Status::Stopped => {
            return Ok(());
        },
        Status::Idle => {
            return Err(AppError::InvalidState);
        },
        _ => {},
    }
    if store_full(s) {
        return Err(AppError::Storage);
    }
    let parent_id = s.tasks[i].parent_id;
    set_status(s, i, Status::Stopped);
    proof {
        assert(s.tasks@[i as int].id == task_id);
        assert(has_task(s.tasks@, task_id));
        lemma_archived_preserved_pointwise(old(s).tasks@, s.tasks@);
    }
    append_event(s, task_id, EventType::Stop, now, Option::None);
    proof {
        assert(s.events@ =~= old(s).events@.push(
            TimeEvent {
                id: old(s).next_event_id,
                task_id,
                event_type: EventType::Stop,
                ts: now,
                payload: Option::None,
            },
        ));
    }
    let mut fired = false;
    match parent_id {
        Option::Some(parent_task_id) => {
            fired = maybe_auto_resume_parent(s, parent_task_id, task_id, now);
        },
        Option::None => {},
    }
    if fired {
        proof {
            assert(has_task(s.tasks@, task_id));
            lemma_archived_preserved_pointwise(old(s).tasks@, s.tasks@);
        }
        let _ = create_rest_suggestion(s, TriggerType::SubtaskEnd, Option::Some(task_id), now);
    }
    Ok(())
}

/// Pauses the running parent, inserts a running child under it, and appends
/// the paired `pause`/`start` events sharing one timestamp; then fires the
/// task-switch advisor for the parent. Returns the child's id.
pub fn insert_subtask_and_start(s: &mut Store, parent_task_id: u64, title: String, now: i64) -> (r:
    Result<u64, AppError>)
    requires
        old(s).inv(),
        now >= 0,
    ensures
        final(s).inv(),
        archived_preserved(old(s).tasks@, final(s).tasks@),
        match r {
            Ok(child_id) => {
                let i = idx_of(old(s).tasks@, parent_task_id);
                let pause_ev = TimeEvent {
                    id: old(s).next_event_id,
                    task_id: parent_task_id,
                    event_type: EventType::Pause,
                    ts: now,
                    payload: Option::Some(Payload::SubtaskPause { child_id }),
                };
                &&& trim_of(title@).len() > 0
                &&& live_task(old(s).tasks@, parent_task_id)
                &&& task_of(old(s).tasks@, parent_task_id).status == Status::Running
                &&& !spec_store_full(*old(s))
                &&& child_id == old(s).next_task_id
                &&& final(s).next_task_id == old(s).next_task_id + 1
                &&& final(s).tasks@.len() == old(s).tasks@.len() + 1
                &&& (forall|j: int|
                    0 <= j < old(s).tasks@.len() && j != i ==> final(s).tasks@[j] == old(
                        s,
                    ).tasks@[j])
                &&& final(s).tasks@[i] == (Task { status: Status::Paused, ..old(s).tasks@[i] })
                &&& ({
                    let c = final(s).tasks@.last();
                    c.id == child_id && c.parent_id == Option::Some(parent_task_id) && c.title@
                        == trim_of(title@) && c.status == Status::Running && c.created_at == now
                        && c.archived_at is None
                })
                &&& final(s).events@.len() == old(s).events@.len() + 2
                &&& final(s).events@.subrange(0, old(s).events@.len() as int) == old(s).events@
                &&& final(s).events@[old(s).events@.len() as int] == pause_ev
                &&& made_event(
                    (old(s).next_event_id + 1) as u64,
                    child_id,
                    EventType::Start,
                    now,
                    Option::Some(Payload::SubtaskStart { parent_id: parent_task_id }),
                    final(s).events@.last(),
                )
                &&& final(s).next_event_id == old(s).next_event_id + 2
                &&& suggestions_after_insert(old(s).suggestions@, final(s).suggestions@, now)
                &&& fresh_suggestion(
                    final(s).suggestions@.last(),
                    final(s).events@,
                    TriggerType::TaskSwitch,
                    Option::Some(parent_task_id),
                    now,
                    old(s).next_suggestion_id,
                )
                &&& final(s).next_suggestion_id == old(s).next_suggestion_id + 1
                &&& final(s).tags == old(s).tags
                &&& final(s).task_tags == old(s).task_tags
                &&& final(s).next_tag_id == old(s).next_tag_id
            },
            Err(e) => {
                &&& *final(s) == *old(s)
                &&& if trim_of(title@).len() == 0 {
                    e == AppError::InvalidInput
                } else if !live_task(old(s).tasks@, parent_task_id) {
                    e == (AppError::NotFound { id: parent_task_id })
                } else if task_of(old(s).tasks@, parent_task_id).status != Status::Running {
                    e == AppError::InvalidState
                } else {
                    e == AppError::Storage && spec_store_full(*old(s))
                }
            },
        },
{
    let clean_title = match sanitize_title(title.as_str()) {
        Ok(t) => t,
        Err(e) => {
            return Err(e);
        },
    };
    let i = match find_live_index(&s.tasks, parent_task_id) {
        Option::Some(i) => i,
        Option::None => {
            return Err(AppError::NotFound { id: parent_task_id });
        },
    };
    match s.tasks[i].status {
        Status::Running => {},
        _ => {
            return Err(AppError::InvalidState);
        },
    }
    if store_full(s) {
        return Err(AppError::Storage);
    }
    let child_task_id = s.next_task_id;
    s.next_task_id = s.next_task_id + 1;
    set_status(s, i, Status::Paused);
    proof {
        assert(s.tasks@[i as int].id == parent_task_id);
        assert(has_task(s.tasks@, parent_task_id));
        lemma_archived_preserved_pointwise(old(s).tasks@, s.tasks@);
    }
    append_event(
        s,
        parent_task_id,
        EventType::Pause,
        now,
        Option::Some(Payload::SubtaskPause { child_id: child_task_id }),
    );
    let child = Task {
        id: child_task_id,
        parent_id: Option::Some(parent_task_id),
        title: clean_title,
        status: Status::Running,
        created_at: now,
        archived_at: Option::None,
    };
    let ghost before_child = s.tasks@;
    proof {
        assert forall|j: int| 0 <= j < s.tasks@.len() implies (#[trigger] s.tasks@[j]).id
            != child.id by {
            assert(old(s).tasks@[j].id < old(s).next_task_id || s.tasks@[j].id == old(
                s,
            ).tasks@[j].id);
        }
        lemma_push_leaf(s.tasks@, s.tasks@.push(child), child);
    }
    s.tasks.push(child);
    proof {
        assert(s.tasks@.subrange(0, s.tasks@.len() - 1) =~= before_child);
        assert forall|k: int|
            0 <= k < s.tasks@.len() && live(#[trigger] s.tasks@[k]) implies match s.tasks@[k].parent_id {
            Option::Some(p) => live_task(s.tasks@, p),
            Option::None => true,
        } by {
            if k < s.tasks@.len() - 1 {
                match s.tasks@[k].parent_id {
                    Option::Some(p) => {
                        if live(s.tasks@[k]) {
                            assert(live(before_child[k]));
                            assert(live_task(before_child, p));
                            lemma_idx_unique(before_child, p, idx_of(before_child, p));
                            lemma_idx_unique(s.tasks@, p, idx_of(before_child, p));
                        }
                    },
                    Option::None => {},
                }
            } else {
                lemma_idx_unique(before_child, parent_task_id, i as int);
                lemma_idx_unique(s.tasks@, parent_task_id, i as int);
            }
        }
        assert forall|a: int, b: int|
            0 <= a < s.tasks@.len() && 0 <= b < s.tasks@.len() && live(s.tasks@[a]) && live(
                s.tasks@[b],
            ) && s.tasks@[a].status == Status::Running && s.tasks@[b].status == Status::Running implies a
            == b by {
            if a < s.tasks@.len() - 1 && b < s.tasks@.len() - 1 {
                assert(at_most_one_running(before_child));
                assert(before_child[a] == s.tasks@[a]);
                assert(before_child[b] == s.tasks@[b]);
            }
        }
        assert forall|k: int|
            0 <= k < s.events@.len() implies has_task(
            s.tasks@,
            (#[trigger] s.events@[k]).task_id,
        ) by {
            assert(has_task(before_child, s.events@[k].task_id));
        }
        assert forall|k: int|
            0 <= k < s.task_tags@.len() implies has_task(
            s.tasks@,
            (#[trigger] s.task_tags@[k]).task_id,
        ) && has_tag(s.tags@, s.task_tags@[k].tag_id) by {
            assert(has_task(before_child, s.task_tags@[k].task_id));
        }
        assert forall|k: int|
            0 <= k < s.suggestions@.len() implies match (#[trigger] s.suggestions@[k]).task_id {
            Option::Some(t) => has_task(s.tasks@, t),
            Option::None => true,
        } by {
            match s.suggestions@[k].task_id {
                Option::Some(t) => {
                    assert(has_task(before_child, t));
                },
                Option::None => {},
            }
        }
        lemma_archived_preserved_pointwise(old(s).tasks@, s.tasks@);
    }
    append_event(
        s,
        child_task_id,
        EventType::Start,
        now,
        Option::Some(Payload::SubtaskStart { parent_id: parent_task_id }),
    );
    proof {
        assert(s.events@.subrange(0, old(s).events@.len() as int) =~= old(s).events@);
        assert(has_task(s.tasks@, parent_task_id));
    }
    let _ = create_rest_suggestion(
        s,
        TriggerType::TaskSwitch,
        Option::Some(parent_task_id),
        now,
    );
    Ok(child_task_id)
}

/// The index of the tag whose name matches `name` up to ASCII case, if any.
pub open spec fn ci_tag_index(tags: Seq<Tag>, name: Seq<char>) -> Option<int> {
    if exists|i: int| 0 <= i < tags.len() && eq_ci((#[trigger] tags[i]).name@, name) {
        Option::Some(
            choose|i: int| 0 <= i < tags.len() && eq_ci((#[trigger] tags[i]).name@, name),
        )
    } else {
        Option::None
    }
}

/// Finds a tag by ASCII-case-insensitive name.
fn find_tag_ci(tags: &Vec<Tag>, name: &str) -> (r: Option<usize>)
    ensures
        match r {
            Option::Some(i) => i < tags@.len() && eq_ci(tags@[i as int].name@, name@),
            Option::None => forall|i: int|
                0 <= i < tags@.len() ==> !eq_ci((#[trigger] tags@[i]).name@, name@),
        },
{
    let mut i: usize = 0;
    while i < tags.len()
        invariant
            0 <= i <= tags@.len(),
            forall|j: int| 0 <= j < i ==> !eq_ci((#[trigger] tags@[j]).name@, name@),
        decreases tags@.len() - i,
    {
        if chars_eq_ci(tags[i].name.as_str(), name) {
            return Option::Some(i);
        }
        i = i + 1;
    }
    Option::None
}

/// Whether some link row joins `task_id` and `tag_id`.
pub open spec fn has_link(links: Seq<TaskTag>, task_id: u64, tag_id: u64) -> bool {
    exists|i: int|
        0 <= i < links.len() && (#[trigger] links[i]).task_id == task_id && links[i].tag_id
            == tag_id
}

/// Finds the link row joining `task_id` and `tag_id`.
fn find_link(links: &Vec<TaskTag>, task_id: u64, tag_id: u64) -> (r: Option<usize>)
    ensures
        match r {
            Option::Some(i) => i < links@.len() && links@[i as int].task_id == task_id
                && links@[i as int].tag_id == tag_id,
            Option::None => !has_link(links@, task_id, tag_id),
        },
{
    let mut i: usize = 0;
    while i < links.len()
        invariant
            0 <= i <= links@.len(),
            forall|j: int|
                0 <= j < i ==> !((#[trigger] links@[j]).task_id == task_id && links@[j].tag_id
                    == tag_id),
        decreases links@.len() - i,
    {
        if links[i].task_id == task_id && links[i].tag_id == tag_id {
            return Option::Some(i);
        }
        i = i + 1;
    }
    Option::None
}

/// Adds a tag to a task: looks the tag up by name ignoring ASCII case,
/// creating it with the caller's capitalization when missing; links it to the
/// task; appends a `tag_add` event only when the link is new.
pub fn add_tag_to_task(s: &mut Store, task_id: u64, tag_name: String, now: i64) -> (r: Result<
    (),
    AppError,
>)
    requires
        old(s).inv(),
        now >= 0,
    ensures
        final(s).inv(),
        final(s).tasks == old(s).tasks,
        final(s).suggestions == old(s).suggestions,
        final(s).next_task_id == old(s).next_task_id,
        final(s).next_suggestion_id == old(s).next_suggestion_id,
        match r {
            Ok(()) => {
                let clean = trim_of(tag_name@);
                &&& live_task(old(s).tasks@, task_id)
                &&& clean.len() > 0
                &&& !spec_store_full(*old(s))
                &&& ({
                    let tag_id = match ci_tag_index(old(s).tags@, clean) {
                        Option::Some(ti) => old(s).tags@[ti].id,
                        Option::None => old(s).next_tag_id,
                    };
                    &&& (match ci_tag_index(old(s).tags@, clean) {
                        Option::Some(ti) => final(s).tags == old(s).tags && final(s).next_tag_id
                            == old(s).next_tag_id,
                        Option::None => {
                            &&& final(s).tags@.len() == old(s).tags@.len() + 1
                            &&& final(s).tags@.subrange(0, old(s).tags@.len() as int) == old(
                                s,
                            ).tags@
                            &&& final(s).tags@.last().id == old(s).next_tag_id
                            &&& final(s).tags@.last().name@ == clean
                            &&& final(s).next_tag_id == old(s).next_tag_id + 1
                        },
                    })
                    &&& (if has_link(old(s).task_tags@, task_id, tag_id) {
                        &&& final(s).task_tags == old(s).task_tags
                        &&& final(s).events == old(s).events
                        &&& final(s).next_event_id == old(s).next_event_id
                    } else {
                        &&& final(s).task_tags@ == old(s).task_tags@.push(
                            TaskTag { task_id, tag_id, created_at: now },
                        )
                        &&& final(s).events@.len() == old(s).events@.len() + 1
                        &&& final(s).events@.subrange(0, old(s).events@.len() as int) == old(
                            s,
                        ).events@
                        &&& ({
                            let e = final(s).events@.last();
                            &&& e.id == old(s).next_event_id
                            &&& e.task_id == task_id
                            &&& e.event_type == EventType::TagAdd
                            &&& e.ts == now
                            &&& (match e.payload {
                                Option::Some(Payload::TagName { tag }) => tag@ == clean,
                                _ => false,
                            })
                        })
                        &&& final(s).next_event_id == old(s).next_event_id + 1
                    })
                })
            },
            Err(e) => {
                &&& *final(s) == *old(s)
                &&& if !live_task(old(s).tasks@, task_id) {
                    e == (AppError::NotFound { id: task_id })
                } else if trim_of(tag_name@).len() == 0 {
                    e == AppError::InvalidInput
                } else {
                    e == AppError::Storage && spec_store_full(*old(s))
                }
            },
        },
{
    if find_live_index(&s.tasks, task_id).is_none() {
        return Err(AppError::NotFound { id: task_id });
    }
    let clean_tag = match sanitize_tag(tag_name.as_str()) {
        Ok(t) => t,
        Err(e) => {
            return Err(e);
        },
    };
    if store_full(s) {
        return Err(AppError::Storage);
    }
    let tag_id: u64 = match find_tag_ci(&s.tags, clean_tag.as_str()) {
        Option::Some(ti) => {
            proof {
                assert(eq_ci(s.tags@[ti as int].name@, clean_tag@));
                let w = ci_tag_index(old(s).tags@, trim_of(tag_name@))->Some_0;
                assert(eq_ci(s.tags@[w].name@, clean_tag@));
                if w != ti as int {
                    crate::textutil::lemma_eq_ci_common(
                        s.tags@[w].name@,
                        s.tags@[ti as int].name@,
                        clean_tag@,
                    );
                    if w < ti as int {
                        assert(!eq_ci(s.tags@[w].name@, s.tags@[ti as int].name@));
                    } else {
                        assert(!eq_ci(s.tags@[ti as int].name@, s.tags@[w].name@));
                        crate::textutil::lemma_eq_ci_common(
                            s.tags@[ti as int].name@,
                            s.tags@[w].name@,
                            clean_tag@,
                        );
                    }
                }
                assert(has_tag(s.tags@, s.tags@[ti as int].id));
            }
            s.tags[ti].id
        },
        Option::None => {
            let created_tag_id = s.next_tag_id;
            s.next_tag_id = s.next_tag_id + 1;
            let ghost tags_before = s.tags@;
            s.tags.push(Tag { id: created_tag_id, name: clean_tag.clone() });
            proof {
                assert(s.tags@.subrange(0, s.tags@.len() - 1) =~= tags_before);
                assert forall|a: int, b: int| 0 <= a < b < s.tags@.len() implies !eq_ci(
                    s.tags@[a].name@,
                    s.tags@[b].name@,
                ) by {
                    if b == s.tags@.len() - 1 {
                        assert(!eq_ci(tags_before[a].name@, clean_tag@));
                    }
                }
                assert(s.tags@[s.tags@.len() - 1].id == created_tag_id);
                assert(has_tag(s.tags@, created_tag_id));
            }
            created_tag_id
        },
    };
    match find_link(&s.task_tags, task_id, tag_id) {
        Option::Some(_) => {
            proof {
                assert(has_link(old(s).task_tags@, task_id, tag_id));
            }
            Ok(())
        },
        Option::None => {
            let ghost links_before = s.task_tags@;
            s.task_tags.push(TaskTag { task_id, tag_id, created_at: now });
            proof {
                assert(s.task_tags@.drop_last() =~= links_before);
                assert forall|a: int, b: int| 0 <= a < b < s.task_tags@.len() implies !(
                s.task_tags@[a].task_id == s.task_tags@[b].task_id && s.task_tags@[a].tag_id
                    == s.task_tags@[b].tag_id) by {
                    if b == s.task_tags@.len() - 1 {
                        assert(!has_link(links_before, task_id, tag_id));
                        if links_before[a].task_id == task_id && links_before[a].tag_id == tag_id {
                            assert(has_link(links_before, task_id, tag_id));
                        }
                    }
                }
                assert(has_tag(s.tags@, tag_id));
            }
            append_event(
                s,
                task_id,
                EventType::TagAdd,
                now,
                Option::Some(Payload::TagName { tag: clean_tag }),
            );
            Ok(())
        },
    }
}

/// Removes a tag from a task: the case-insensitive lookup and the unlink; a
/// `tag_remove` event is appended only when a link was actually removed.
/// Removing an absent tag or link succeeds silently. The tag row itself stays.
pub fn remove_tag_from_task(s: &mut Store, task_id: u64, tag_name: String, now: i64) -> (r: Result<
    (),
    AppError,
>)
    requires
        old(s).inv(),
        now >= 0,
    ensures
        final(s).inv(),
        final(s).tasks == old(s).tasks,
        final(s).tags == old(s).tags,
        final(s).suggestions == old(s).suggestions,
        final(s).next_task_id == old(s).next_task_id,
        final(s).next_tag_id == old(s).next_tag_id,
        final(s).next_suggestion_id == old(s).next_suggestion_id,
        match r {
            Ok(()) => {
                let clean = trim_of(tag_name@);
                &&& live_task(old(s).tasks@, task_id)
                &&& clean.len() > 0
                &&& !spec_store_full(*old(s))
                &&& (match ci_tag_index(old(s).tags@, clean) {
                    Option::Some(ti) => {
                        let tag_id = old(s).tags@[ti].id;
                        if has_link(old(s).task_tags@, task_id, tag_id) {
                            &&& final(s).task_tags@ == old(s).task_tags@.remove(
                                link_index(old(s).task_tags@, task_id, tag_id),
                            )
                            &&& final(s).events@.len() == old(s).events@.len() + 1
                            &&& final(s).events@.subrange(0, old(s).events@.len() as int) == old(
                                s,
                            ).events@
                            &&& ({
                                let e = final(s).events@.last();
                                &&& e.id == old(s).next_event_id
                                &&& e.task_id == task_id
                                &&& e.event_type == EventType::TagRemove
                                &&& e.ts == now
                                &&& (match e.payload {
                                    Option::Some(Payload::TagName { tag }) => tag@ == clean,
                                    _ => false,
                                })
                            })
                            &&& final(s).next_event_id == old(s).next_event_id + 1
                        } else {
                            &&& final(s).task_tags == old(s).task_tags
                            &&& final(s).events == old(s).events
                            &&& final(s).next_event_id == old(s).next_event_id
                        }
                    },
                    Option::None => {
                        &&& final(s).task_tags == old(s).task_tags
                        &&& final(s).events == old(s).events
                        &&& final(s).next_event_id == old(s).next_event_id
                    },
                })
            },
            Err(e) => {
                &&& *final(s) == *old(s)
                &&& if !live_task(old(s).tasks@, task_id) {
                    e == (AppError::NotFound { id: task_id })
                } else if trim_of(tag_name@).len() == 0 {
                    e == AppError::InvalidInput
                } else {
                    e == AppError::Storage && spec_store_full(*old(s))
                }
            },
        },
{
    if find_live_index(&s.tasks, task_id).is_none() {
        return Err(AppError::NotFound { id: task_id });
    }
    let clean_tag = match sanitize_tag(tag_name.as_str()) {
        Ok(t) => t,
        Err(e) => {
            return Err(e);
        },
    };
    if store_full(s) {
        return Err(AppError::Storage);
    }
    let ti = match find_tag_ci(&s.tags, clean_tag.as_str()) {
        Option::Some(ti) => ti,
        Option::None => {
            proof {
                assert(ci_tag_index(old(s).tags@, trim_of(tag_name@)) is None);
            }
            return Ok(());
        },
    };
    proof {
        assert(eq_ci(s.tags@[ti as int].name@, clean_tag@));
        let w = ci_tag_index(old(s).tags@, trim_of(tag_name@))->Some_0;
        assert(eq_ci(s.tags@[w].name@, clean_tag@));
        if w != ti as int {
            if w < ti as int {
                crate::textutil::lemma_eq_ci_common(
                    s.tags@[w].name@,
                    s.tags@[ti as int].name@,
                    clean_tag@,
                );
                assert(!eq_ci(s.tags@[w].name@, s.tags@[ti as int].name@));
            } else {
                crate::textutil::lemma_eq_ci_common(
                    s.tags@[ti as int].name@,
                    s.tags@[w].name@,
                    clean_tag@,
                );
                assert(!eq_ci(s.tags@[ti as int].name@, s.tags@[w].name@));
            }
        }
    }
    let tag_id = s.tags[ti].id;
    let li = match find_link(&s.task_tags, task_id, tag_id) {
        Option::Some(li) => li,
        Option::None => {
            return Ok(());
        },
    };
    proof {
        let w = link_index(old(s).task_tags@, task_id, tag_id);
        assert(0 <= w < s.task_tags@.len() && s.task_tags@[w].task_id == task_id
            && s.task_tags@[w].tag_id == tag_id);
        if w != li as int {
            if w < li as int {
                assert(!(s.task_tags@[w].task_id == s.task_tags@[li as int].task_id
                    && s.task_tags@[w].tag_id == s.task_tags@[li as int].tag_id));
            } else {
                assert(!(s.task_tags@[li as int].task_id == s.task_tags@[w].task_id
                    && s.task_tags@[li as int].tag_id == s.task_tags@[w].tag_id));
            }
        }
    }
    let ghost links_before = s.task_tags@;
    let _ = s.task_tags.remove(li);
    proof {
        assert forall|a: int, b: int| 0 <= a < b < s.task_tags@.len() implies !(
        s.task_tags@[a].task_id == s.task_tags@[b].task_id && s.task_tags@[a].tag_id
            == s.task_tags@[b].tag_id) by {
            let a0 = if a < li as int {
                a
            } else {
                a + 1
            };
            let b0 = if b < li as int {
                b
            } else {
                b + 1
            };
            assert(s.task_tags@[a] == links_before[a0]);
            assert(s.task_tags@[b] == links_before[b0]);
        }
        assert forall|k: int|
            0 <= k < s.task_tags@.len() implies has_task(
            s.tasks@,
            (#[trigger] s.task_tags@[k]).task_id,
        ) && has_tag(s.tags@, s.task_tags@[k].tag_id) by {
            let k0 = if k < li as int {
                k
            } else {
                k + 1
            };
            assert(s.task_tags@[k] == links_before[k0]);
        }
    }
    append_event(
        s,
        task_id,
        EventType::TagRemove,
        now,
        Option::Some(Payload::TagName { tag: clean_tag }),
    );
    Ok(())
}

/// The index of the link row joining `task_id` and `tag_id` (meaningful when
/// present; link rows are unique).
pub open spec fn link_index(links: Seq<TaskTag>, task_id: u64, tag_id: u64) -> int {
    choose|i: int|
        0 <= i < links.len() && (#[trigger] links[i]).task_id == task_id && links[i].tag_id
            == tag_id
}

/// Whether a vector of ids holds `x`.
fn contains_u64(v: &Vec<u64>, x: u64) -> (r: bool)
    ensures
        r == v@.contains(x),
{
    let mut i: usize = 0;
    while i < v.len()
        invariant
            0 <= i <= v@.len(),
            forall|j: int| 0 <= j < i ==> v@[j] != x,
        decreases v@.len() - i,
    {
        if v[i] == x {
            return true;
        }
        i = i + 1;
    }
    false
}

/// Walks the parent chain from `x` and reports whether it passes `target`.
pub fn chain_reaches(tasks: &Vec<Task>, x: u64, target: u64) -> (r: bool)
    requires
        unique_ids(tasks@),
        parents_exist(tasks@),
        grounded(tasks@),
    ensures
        r == on_chain(tasks@, x, target),
{
    let ghost n0 = choose|n: nat| chain(tasks@, x, n) is None;
    proof {
        assert(grounded_at(tasks@, x));
        assert(chain(tasks@, x, n0) is None);
    }
    let mut cur = x;
    let ghost mut k: nat = 0nat;
    loop
        invariant
            unique_ids(tasks@),
            parents_exist(tasks@),
            grounded(tasks@),
            chain(tasks@, x, n0) is None,
            chain(tasks@, x, k) == Option::<u64>::Some(cur),
            forall|m: nat| m < k ==> #[trigger] chain(tasks@, x, m) != Option::<u64>::Some(target),
            k < n0,
        decreases n0 - k,
    {
        if cur == target {
            return true;
        }
        let step: Option<u64> = match find_task_index(tasks, cur) {
            Option::Some(i) => {
                proof {
                    lemma_idx_unique(tasks@, cur, i as int);
                }
                s_parent(tasks, i)
            },
            Option::None => Option::None,
        };
        match step {
            Option::Some(p) => {
                proof {
                    assert(chain(tasks@, x, k + 1) == parent_step(tasks@, cur));
                    assert(parent_step(tasks@, cur) == Option::<u64>::Some(p));
                    k = k + 1;
                    assert forall|m: nat| m < k implies #[trigger] chain(tasks@, x, m)
                        != Option::<u64>::Some(target) by {
                        if m == k - 1 {
                            assert(chain(tasks@, x, m) == Option::<u64>::Some(cur));
                        }
                    }
                    if k >= n0 {
                        lemma_chain_none_mono(tasks@, x, n0, k);
                    }
                }
                cur = p;
            },
            Option::None => {
                proof {
                    assert(chain(tasks@, x, k + 1) == parent_step(tasks@, cur));
                    assert(chain(tasks@, x, k + 1) is None);
                    assert forall|m: nat| #[trigger] chain(tasks@, x, m)
                        != Option::<u64>::Some(target) by {
                        if m < k {
                        } else if m == k {
                            assert(chain(tasks@, x, m) == Option::<u64>::Some(cur));
                        } else {
                            lemma_chain_none_mono(tasks@, x, (k + 1) as nat, m);
                        }
                    }
                }
                return false;
            },
        }
    }
}

/// The parent pointer of the task at index `i`.
fn s_parent(tasks: &Vec<Task>, i: usize) -> (r: Option<u64>)
    requires
        i < tasks@.len(),
    ensures
        r == tasks@[i as int].parent_id,
{
    tasks[i].parent_id
}

/// `x` is a non-archived member of the subtree of some root: the roots are the
/// tasks named for deletion, the members everything reachable below them.
pub open spec fn in_subtrees(tasks: Seq<Task>, roots: Seq<u64>, x: u64) -> bool {
    live_task(tasks, x) && exists|k: int| 0 <= k < roots.len() && on_chain(tasks, x, roots[k])
}

/// Collects the non-archived subtree of one root: every live task whose parent
/// chain passes the root, the root included.
fn collect_subtree_ids(tasks: &Vec<Task>, root_task_id: u64) -> (r: Vec<u64>)
    requires
        unique_ids(tasks@),
        parents_exist(tasks@),
        grounded(tasks@),
    ensures
        forall|m: int|
            0 <= m < r@.len() ==> live_task(tasks@, #[trigger] r@[m]) && on_chain(
                tasks@,
                r@[m],
                root_task_id,
            ),
        forall|id: u64|
            live_task(tasks@, id) && on_chain(tasks@, id, root_task_id) ==> r@.contains(id),
        forall|m: int, n: int| 0 <= m < n < r@.len() ==> r@[m] != r@[n],
{
    let mut result: Vec<u64> = Vec::new();
    let mut i: usize = 0;
    while i < tasks.len()
        invariant
            unique_ids(tasks@),
            parents_exist(tasks@),
            grounded(tasks@),
            0 <= i <= tasks@.len(),
            forall|m: int|
                0 <= m < result@.len() ==> live_task(tasks@, #[trigger] result@[m]) && on_chain(
                    tasks@,
                    result@[m],
                    root_task_id,
                ),
            forall|j: int|
                0 <= j < i && live(#[trigger] tasks@[j]) && on_chain(
                    tasks@,
                    tasks@[j].id,
                    root_task_id,
                ) ==> result@.contains(tasks@[j].id),
            forall|m: int, n: int| 0 <= m < n < result@.len() ==> result@[m] != result@[n],
            forall|m: int|
                0 <= m < result@.len() ==> exists|j: int|
                    0 <= j < i && (#[trigger] result@[m]) == tasks@[j].id,
        decreases tasks@.len() - i,
    {
        let ghost rbefore = result@;
        if tasks[i].archived_at.is_none() {
            let tid = tasks[i].id;
            if chain_reaches(tasks, tid, root_task_id) {
                proof {
                    lemma_idx_unique(tasks@, tid, i as int);
                    assert(live_task(tasks@, tid));
                    assert forall|m: int| 0 <= m < result@.len() implies result@[m] != tid by {
                        let j = choose|j: int|
                            0 <= j < i && (#[trigger] result@[m]) == tasks@[j].id;
                        assert(tasks@[j].id != tasks@[i as int].id);
                    }
                }
                result.push(tid);
            }
        }
        proof {
            if live(tasks@[i as int]) && on_chain(tasks@, tasks@[i as int].id, root_task_id) {
                lemma_idx_unique(tasks@, tasks@[i as int].id, i as int);
            }
            assert forall|j: int|
                0 <= j < i + 1 && live(#[trigger] tasks@[j]) && on_chain(
                    tasks@,
                    tasks@[j].id,
                    root_task_id,
                ) implies result@.contains(tasks@[j].id) by {
                if j == i as int {
                    lemma_idx_unique(tasks@, tasks@[j].id, j);
                    assert(result@[result@.len() - 1] == tasks@[j].id);
                } else {
                    assert(rbefore.contains(tasks@[j].id));
                    let w = choose|w: int| 0 <= w < rbefore.len() && rbefore[w] == tasks@[j].id;
                    assert(result@[w] == tasks@[j].id);
                }
            }
        }
        i = i + 1;
    }
    proof {
        assert forall|id: u64|
            live_task(tasks@, id) && on_chain(tasks@, id, root_task_id) implies result@.contains(
            id,
        ) by {
            let j = idx_of(tasks@, id);
            assert(tasks@[j].id == id && live(tasks@[j]));
        }
    }
    result
}

/// Expands deletion roots into the union of their non-archived subtrees,
/// rejecting any root that is missing or archived.
fn expand_unique_subtree_ids(s: &Store, root_task_ids: &Vec<u64>) -> (r: Result<Vec<u64>, AppError>)
    requires
        s.inv(),
    ensures
        match r {
            Ok(ex) => {
                &&& forall|k: int|
                    0 <= k < root_task_ids@.len() ==> live_task(
                        s.tasks@,
                        #[trigger] root_task_ids@[k],
                    )
                &&& forall|x: u64| ex@.contains(x) == in_subtrees(s.tasks@, root_task_ids@, x)
                &&& forall|m: int, n: int| 0 <= m < n < ex@.len() ==> ex@[m] != ex@[n]
            },
            Err(e) => {
                &&& e matches AppError::NotFound { id: t } && exists|k: int|
                    0 <= k < root_task_ids@.len() && #[trigger] root_task_ids@[k] == t
                        && !live_task(s.tasks@, t)
            },
        },
{
    let mut expanded: Vec<u64> = Vec::new();
    let mut k: usize = 0;
    while k < root_task_ids.len()
        invariant
            s.inv(),
            0 <= k <= root_task_ids@.len(),
            forall|j: int|
                0 <= j < k ==> live_task(s.tasks@, #[trigger] root_task_ids@[j]),
            forall|x: u64|
                expanded@.contains(x) == in_subtrees(s.tasks@, root_task_ids@.take(k as int), x),
            forall|m: int, n: int| 0 <= m < n < expanded@.len() ==> expanded@[m] != expanded@[n],
        decreases root_task_ids@.len() - k,
    {
        let root = root_task_ids[k];
        if find_live_index(&s.tasks, root).is_none() {
            return Err(AppError::NotFound { id: root });
        }
        let subtree = collect_subtree_ids(&s.tasks, root);
        let ghost before = expanded@;
        let mut m: usize = 0;
        while m < subtree.len()
            invariant
                s.inv(),
                0 <= m <= subtree@.len(),
                0 <= k < root_task_ids@.len(),
                root == root_task_ids@[k as int],
                forall|mm: int|
                    0 <= mm < subtree@.len() ==> live_task(s.tasks@, #[trigger] subtree@[mm])
                        && on_chain(tasks_view(s), subtree@[mm], root),
                forall|id: u64|
                    live_task(s.tasks@, id) && on_chain(tasks_view(s), id, root)
                        ==> subtree@.contains(id),
                forall|x: u64|
                    expanded@.contains(x) == (in_subtrees(s.tasks@, root_task_ids@.take(k as int), x)
                        || (exists|mm: int|
                        0 <= mm < m && (#[trigger] subtree@[mm]) == x)),
                forall|a: int, b: int| 0 <= a < b < expanded@.len() ==> expanded@[a] != expanded@[b],
            decreases subtree@.len() - m,
        {
            let cand = subtree[m];
            if !contains_u64(&expanded, cand) {
                let ghost ebefore = expanded@;
                expanded.push(cand);
                proof {
                    assert forall|x: u64|
                        expanded@.contains(x) == (in_subtrees(
                            s.tasks@,
                            root_task_ids@.take(k as int),
                            x,
                        ) || (exists|mm: int|
                            0 <= mm < m + 1 && (#[trigger] subtree@[mm]) == x)) by {
                        if expanded@.contains(x) {
                            let w = choose|w: int|
                                0 <= w < expanded@.len() && expanded@[w] == x;
                            if w < ebefore.len() {
                                assert(ebefore.contains(x));
                            } else {
                                assert(x == cand);
                                assert(subtree@[m as int] == x);
                            }
                        }
                        if in_subtrees(s.tasks@, root_task_ids@.take(k as int), x) || (exists|
                            mm: int,
                        |
                            0 <= mm < m + 1 && (#[trigger] subtree@[mm]) == x) {
                            if in_subtrees(s.tasks@, root_task_ids@.take(k as int), x) {
                                assert(ebefore.contains(x));
                                let w = choose|w: int|
                                    0 <= w < ebefore.len() && ebefore[w] == x;
                                assert(expanded@[w] == x);
                            } else {
                                let mm = choose|mm: int|
                                    0 <= mm < m + 1 && (#[trigger] subtree@[mm]) == x;
                                if mm < m {
                                    assert(ebefore.contains(x));
                                    let w = choose|w: int|
                                        0 <= w < ebefore.len() && ebefore[w] == x;
                                    assert(expanded@[w] == x);
                                } else {
                                    assert(expanded@[expanded@.len() - 1] == x);
                                }
                            }
                        }
                    }
                    assert forall|a: int, b: int|
                        0 <= a < b < expanded@.len() implies expanded@[a] != expanded@[b] by {
                        if b == expanded@.len() - 1 {
                            if ebefore[a] == cand {
                                assert(ebefore.contains(cand));
                            }
                        }
                    }
                }
            } else {
                proof {
                    assert forall|x: u64|
                        expanded@.contains(x) == (in_subtrees(
                            s.tasks@,
                            root_task_ids@.take(k as int),
                            x,
                        ) || (exists|mm: int|
                            0 <= mm < m + 1 && (#[trigger] subtree@[mm]) == x)) by {
                        if exists|mm: int| 0 <= mm < m + 1 && (#[trigger] subtree@[mm]) == x {
                            let mm = choose|mm: int|
                                0 <= mm < m + 1 && (#[trigger] subtree@[mm]) == x;
                            if mm == m {
                                assert(expanded@.contains(cand));
                            }
                        }
                    }
                }
            }
            m = m + 1;
        }
        proof {
            assert(root_task_ids@.take(k + 1).drop_last() =~= root_task_ids@.take(k as int));
            assert(root_task_ids@.take(k + 1).last() == root_task_ids@[k as int]);
            assert forall|x: u64|
                expanded@.contains(x) == in_subtrees(
                    s.tasks@,
                    root_task_ids@.take(k + 1),
                    x,
                ) by {
                let taken = root_task_ids@.take(k + 1);
                if expanded@.contains(x) {
                    if in_subtrees(s.tasks@, root_task_ids@.take(k as int), x) {
                        let w = choose|w: int|
                            0 <= w < root_task_ids@.take(k as int).len() && on_chain(
                                tasks_view(s),
                                x,
                                root_task_ids@.take(k as int)[w],
                            );
                        assert(taken[w] == root_task_ids@.take(k as int)[w]);
                        assert(in_subtrees(s.tasks@, taken, x));
                    } else {
                        assert(subtree@.contains(x));
                        assert(on_chain(tasks_view(s), x, root));
                        assert(taken[k as int] == root);
                        assert(in_subtrees(s.tasks@, taken, x));
                    }
                }
                if in_subtrees(s.tasks@, taken, x) {
                    let w = choose|w: int|
                        0 <= w < taken.len() && on_chain(tasks_view(s), x, taken[w]);
                    if w < k as int {
                        assert(root_task_ids@.take(k as int)[w] == taken[w]);
                        assert(in_subtrees(s.tasks@, root_task_ids@.take(k as int), x));
                    } else {
                        assert(taken[w] == root);
                        assert(subtree@.contains(x));
                        let mm = choose|mm: int|
                            0 <= mm < subtree@.len() && subtree@[mm] == x;
                        assert(exists|mm: int|
                            0 <= mm < subtree@.len() && (#[trigger] subtree@[mm]) == x);
                    }
                }
            }
        }
        k = k + 1;
    }
    proof {
        assert(root_task_ids@.take(root_task_ids@.len() as int) =~= root_task_ids@);
    }
    Ok(expanded)
}

/// The task table of a store, for contracts that quantify over chains.
pub open spec fn tasks_view(s: &Store) -> Seq<Task> {
    s.tasks@
}

/// Looks for a running or paused task among the given ids.
fn find_active_in_subtree(tasks: &Vec<Task>, ids: &Vec<u64>) -> (r: Option<(u64, Status)>)
    requires
        unique_ids(tasks@),
        forall|m: int| 0 <= m < ids@.len() ==> live_task(tasks@, #[trigger] ids@[m]),
    ensures
        match r {
            Option::Some(p) => ids@.contains(p.0) && live_task(tasks@, p.0) && task_of(
                tasks@,
                p.0,
            ).status == p.1 && (p.1 == Status::Running || p.1 == Status::Paused),
            Option::None => forall|m: int|
                0 <= m < ids@.len() ==> task_of(tasks@, #[trigger] ids@[m]).status
                    != Status::Running && task_of(tasks@, ids@[m]).status != Status::Paused,
        },
{
    let mut m: usize = 0;
    while m < ids.len()
        invariant
            unique_ids(tasks@),
            forall|j: int| 0 <= j < ids@.len() ==> live_task(tasks@, #[trigger] ids@[j]),
            0 <= m <= ids@.len(),
            forall|j: int|
                0 <= j < m ==> task_of(tasks@, #[trigger] ids@[j]).status != Status::Running
                    && task_of(tasks@, ids@[j]).status != Status::Paused,
        decreases ids@.len() - m,
    {
        let id = ids[m];
        match find_live_index(tasks, id) {
            Option::Some(i) => {
                let st = tasks[i].status;
                proof {
                    assert(task_of(tasks@, id) == tasks@[i as int]);
                }
                match st {
                    Status::Running => {
                        return Option::Some((id, st));
                    },
                    Status::Paused => {
                        return Option::Some((id, st));
                    },
                    _ => {},
                }
            },
            Option::None => {
                proof {
                    assert(live_task(tasks@, id));
                }
            },
        }
        m = m + 1;
    }
    Option::None
}

/// Keep a task row iff it is outside the deleted subtrees.
pub open spec fn task_kept(tasks: Seq<Task>, roots: Seq<u64>) -> spec_fn(Task) -> bool {
    |t: Task| !in_subtrees(tasks, roots, t.id)
}

/// Keep an event iff its owner is outside the deleted subtrees.
pub open spec fn event_kept(tasks: Seq<Task>, roots: Seq<u64>) -> spec_fn(TimeEvent) -> bool {
    |e: TimeEvent| !in_subtrees(tasks, roots, e.task_id)
}

/// Keep a suggestion iff it names no task or one outside the deleted subtrees.
pub open spec fn suggestion_kept(tasks: Seq<Task>, roots: Seq<u64>) -> spec_fn(
    crate::domain::RestSuggestionRecord,
) -> bool {
    |r: crate::domain::RestSuggestionRecord|
        match r.task_id {
            Option::Some(t) => !in_subtrees(tasks, roots, t),
            Option::None => true,
        }
}

/// Keep a link iff its task is outside the deleted subtrees.
pub open spec fn link_kept(tasks: Seq<Task>, roots: Seq<u64>) -> spec_fn(TaskTag) -> bool {
    |l: TaskTag| !in_subtrees(tasks, roots, l.task_id)
}

/// Keep a tag iff some surviving link still names it.
pub open spec fn tag_kept(links: Seq<TaskTag>) -> spec_fn(Tag) -> bool {
    |g: Tag| exists|i: int| 0 <= i < links.len() && (#[trigger] links[i]).tag_id == g.id
}

/// The task rows that survive a hard delete of the subtrees under `roots`.
pub open spec fn remaining_tasks(tasks: Seq<Task>, roots: Seq<u64>) -> Seq<Task> {
    tasks.filter(task_kept(tasks, roots))
}

/// The events that survive: those whose owner survives.
pub open spec fn remaining_events(
    tasks: Seq<Task>,
    events: Seq<TimeEvent>,
    roots: Seq<u64>,
) -> Seq<TimeEvent> {
    events.filter(event_kept(tasks, roots))
}

/// The suggestions that survive: those without a task, or whose task survives.
pub open spec fn remaining_suggestions(
    tasks: Seq<Task>,
    suggestions: Seq<crate::domain::RestSuggestionRecord>,
    roots: Seq<u64>,
) -> Seq<crate::domain::RestSuggestionRecord> {
    suggestions.filter(suggestion_kept(tasks, roots))
}

/// The links that survive: those whose task survives.
pub open spec fn remaining_links(
    tasks: Seq<Task>,
    links: Seq<TaskTag>,
    roots: Seq<u64>,
) -> Seq<TaskTag> {
    links.filter(link_kept(tasks, roots))
}

/// The tags that survive the orphan sweep: those some surviving link names.
pub open spec fn referenced_tags(tags: Seq<Tag>, links: Seq<TaskTag>) -> Seq<Tag> {
    tags.filter(tag_kept(links))
}

/// Copies one payload value.
fn clone_payload(p: &Payload) -> (r: Payload)
    ensures
        r == *p,
{
    match p {
        Payload::Reparent { old_parent_id, new_parent_id } => Payload::Reparent {
            old_parent_id: *old_parent_id,
            new_parent_id: *new_parent_id,
        },
        Payload::SubtaskPause { child_id } => Payload::SubtaskPause { child_id: *child_id },
        Payload::SubtaskStart { parent_id } => Payload::SubtaskStart { parent_id: *parent_id },
        Payload::ChildStopped { child_id } => Payload::ChildStopped { child_id: *child_id },
        Payload::TagName { tag } => Payload::TagName { tag: tag.clone() },
    }
}

/// Copies one task row.
pub fn clone_task_pub(t: &Task) -> (r: Task)
    ensures
        r == *t,
{
    Task {
        id: t.id,
        parent_id: t.parent_id,
        title: t.title.clone(),
        status: t.status,
        created_at: t.created_at,
        archived_at: t.archived_at,
    }
}

/// Copies one event row.
fn clone_event(e: &TimeEvent) -> (r: TimeEvent)
    ensures
        r == *e,
{
    TimeEvent {
        id: e.id,
        task_id: e.task_id,
        event_type: e.event_type,
        ts: e.ts,
        payload: match &e.payload {
            Option::Some(p) => Option::Some(clone_payload(p)),
            Option::None => Option::None,
        },
    }
}

/// Copies one tag row.
fn clone_tag(g: &Tag) -> (r: Tag)
    ensures
        r == *g,
{
    Tag { id: g.id, name: g.name.clone() }
}

/// Copies a vector of strings.
fn clone_strings(v: &Vec<String>) -> (r: Vec<String>)
    ensures
        r@ == v@,
{
    let mut out: Vec<String> = Vec::new();
    let mut i: usize = 0;
    while i < v.len()
        invariant
            0 <= i <= v@.len(),
            out@ == v@.take(i as int),
        decreases v@.len() - i,
    {
        out.push(v[i].clone());
        proof {
            assert(v@.take(i + 1) =~= v@.take(i as int).push(v@[i as int]));
        }
        i = i + 1;
    }
    proof {
        assert(v@.take(v@.len() as int) =~= v@);
    }
    out
}

/// Copies one suggestion row; the copied reason list has the same view.
pub fn clone_suggestion_pub(r0: &crate::domain::RestSuggestionRecord) -> (r:
    crate::domain::RestSuggestionRecord)
    ensures
        r.id == r0.id,
        r.trigger_type == r0.trigger_type,
        r.task_id == r0.task_id,
        r.focus_seconds == r0.focus_seconds,
        r.switch_count_30m == r0.switch_count_30m,
        r.deviation_ratio == r0.deviation_ratio,
        r.suggested_minutes == r0.suggested_minutes,
        r.reasons@ == r0.reasons@,
        r.status == r0.status,
        r.created_at == r0.created_at,
        r.responded_at == r0.responded_at,
{
    crate::domain::RestSuggestionRecord {
        id: r0.id,
        trigger_type: r0.trigger_type,
        task_id: r0.task_id,
        focus_seconds: r0.focus_seconds,
        switch_count_30m: r0.switch_count_30m,
        deviation_ratio: r0.deviation_ratio,
        suggested_minutes: r0.suggested_minutes,
        reasons: clone_strings(&r0.reasons),
        status: r0.status,
        created_at: r0.created_at,
        responded_at: r0.responded_at,
    }
}



/// A hard delete would leave a surviving row pointing at a removed task (an
/// archived child below a deleted subtree); storage would reject it.
pub open spec fn hard_delete_blocked(tasks: Seq<Task>, roots: Seq<u64>) -> bool {
    exists|j: int|
        0 <= j < tasks.len() && !in_subtrees(tasks, roots, (#[trigger] tasks[j]).id) && match tasks[j].parent_id {
            Option::Some(p) => in_subtrees(tasks, roots, p),
            Option::None => false,
        }
}

/// Runtime check for `hard_delete_blocked`, using the expanded id set.
fn check_hard_delete_blocked(tasks: &Vec<Task>, expanded: &Vec<u64>, Ghost(roots): Ghost<Seq<u64>>) -> (r:
    bool)
    requires
        forall|x: u64| expanded@.contains(x) == in_subtrees(tasks@, roots, x),
    ensures
        r == hard_delete_blocked(tasks@, roots),
{
    let mut j: usize = 0;
    while j < tasks.len()
        invariant
            forall|x: u64| expanded@.contains(x) == in_subtrees(tasks@, roots, x),
            0 <= j <= tasks@.len(),
            forall|m: int|
                0 <= m < j ==> !(!in_subtrees(tasks@, roots, (#[trigger] tasks@[m]).id)
                    && match tasks@[m].parent_id {
                    Option::Some(p) => in_subtrees(tasks@, roots, p),
                    Option::None => false,
                }),
        decreases tasks@.len() - j,
    {
        if !contains_u64(expanded, tasks[j].id) {
            match s_parent(tasks, j) {
                Option::Some(p) => {
                    if contains_u64(expanded, p) {
                        return true;
                    }
                },
                Option::None => {},
            }
        }
        j = j + 1;
    }
    false
}

/// Archives every task in the expanded set, at one instant.
fn archive_task_ids(s: &mut Store, expanded: &Vec<u64>, Ghost(roots): Ghost<Seq<u64>>, archived_at: i64)
    requires
        old(s).inv(),
        forall|x: u64| expanded@.contains(x) == in_subtrees(old(s).tasks@, roots, x),
        forall|m: int, n: int| 0 <= m < n < expanded@.len() ==> expanded@[m] != expanded@[n],
        forall|x: u64|
            in_subtrees(old(s).tasks@, roots, x) ==> task_of(old(s).tasks@, x).status
                != Status::Running && task_of(old(s).tasks@, x).status != Status::Paused,
    ensures
        final(s).inv(),
        final(s).tasks@.len() == old(s).tasks@.len(),
        forall|j: int|
            0 <= j < old(s).tasks@.len() ==> final(s).tasks@[j] == (if in_subtrees(
                old(s).tasks@,
                roots,
                (#[trigger] old(s).tasks@[j]).id,
            ) {
                Task { archived_at: Option::Some(archived_at), ..old(s).tasks@[j] }
            } else {
                old(s).tasks@[j]
            }),
        final(s).events == old(s).events,
        final(s).tags == old(s).tags,
        final(s).task_tags == old(s).task_tags,
        final(s).suggestions == old(s).suggestions,
        final(s).next_task_id == old(s).next_task_id,
        final(s).next_tag_id == old(s).next_tag_id,
        final(s).next_event_id == old(s).next_event_id,
        final(s).next_suggestion_id == old(s).next_suggestion_id,
{
    let ghost tasks0 = old(s).tasks@;
    let mut k: usize = 0;
    while k < expanded.len()
        invariant
            old(s).inv(),
            s.events == old(s).events,
            s.tags == old(s).tags,
            s.task_tags == old(s).task_tags,
            s.suggestions == old(s).suggestions,
            s.next_task_id == old(s).next_task_id,
            s.next_tag_id == old(s).next_tag_id,
            s.next_event_id == old(s).next_event_id,
            s.next_suggestion_id == old(s).next_suggestion_id,
            forall|x: u64| expanded@.contains(x) == in_subtrees(tasks0, roots, x),
            forall|m: int, n: int| 0 <= m < n < expanded@.len() ==> expanded@[m] != expanded@[n],
            tasks0 == old(s).tasks@,
            0 <= k <= expanded@.len(),
            s.tasks@.len() == tasks0.len(),
            forall|j: int|
                0 <= j < tasks0.len() ==> s.tasks@[j] == (if expanded@.take(k as int).contains(
                    (#[trigger] tasks0[j]).id,
                ) {
                    Task { archived_at: Option::Some(archived_at), ..tasks0[j] }
                } else {
                    tasks0[j]
                }),
        decreases expanded@.len() - k,
    {
        let id = expanded[k];
        proof {
            assert(expanded@.contains(id));
            assert(in_subtrees(tasks0, roots, id));
            assert(has_task(tasks0, id));
        }
        match find_task_index(&s.tasks, id) {
            Option::Some(i) => {
                let ghost before = s.tasks@;
                let row = &mut s.tasks[i];
                row.archived_at = Option::Some(archived_at);
                proof {
                    assert(before[i as int].id == id);
                    assert(tasks0[i as int].id == id) by {
                        assert(before[i as int] == (if expanded@.take(k as int).contains(
                            tasks0[i as int].id,
                        ) {
                            Task { archived_at: Option::Some(archived_at), ..tasks0[i as int] }
                        } else {
                            tasks0[i as int]
                        }));
                    }
                    assert(expanded@.take(k + 1).drop_last() =~= expanded@.take(k as int));
                    assert forall|j: int|
                        0 <= j < tasks0.len() implies s.tasks@[j] == (if expanded@.take(
                        k + 1,
                    ).contains((#[trigger] tasks0[j]).id) {
                        Task { archived_at: Option::Some(archived_at), ..tasks0[j] }
                    } else {
                        tasks0[j]
                    }) by {
                        if j == i as int {
                            assert(expanded@.take(k + 1)[k as int] == id);
                            assert(expanded@.take(k + 1).contains(tasks0[j].id));
                        } else {
                            assert(tasks0[j].id != tasks0[i as int].id) by {
                                if j < i as int {
                                    assert(tasks0[j].id != tasks0[i as int].id);
                                }
                            }
                            assert(expanded@.take(k + 1).contains(tasks0[j].id)
                                == expanded@.take(k as int).contains(tasks0[j].id)) by {
                                if expanded@.take(k + 1).contains(tasks0[j].id) {
                                    let w = choose|w: int|
                                        0 <= w < expanded@.take(k + 1).len() && #[trigger] expanded@.take(
                                            k + 1,
                                        )[w] == tasks0[j].id;
                                    if w < k as int {
                                        assert(expanded@.take(k as int)[w] == tasks0[j].id);
                                    }
                                }
                                if expanded@.take(k as int).contains(tasks0[j].id) {
                                    let w = choose|w: int|
                                        0 <= w < expanded@.take(k as int).len() && #[trigger] expanded@.take(
                                            k as int,
                                        )[w] == tasks0[j].id;
                                    assert(expanded@.take(k + 1)[w] == tasks0[j].id);
                                }
                            }
                        }
                    }
                }
            },
            Option::None => {
                proof {
                    assert(has_task(s.tasks@, id)) by {
                        let w = idx_of(tasks0, id);
                        assert(s.tasks@[w].id == tasks0[w].id);
                    }
                }
            },
        }
        k = k + 1;
    }
    proof {
        assert(expanded@.take(expanded@.len() as int) =~= expanded@);
        let t1 = s.tasks@;
        assert forall|j: int|
            0 <= j < tasks0.len() implies t1[j] == (if in_subtrees(
            tasks0,
            roots,
            (#[trigger] tasks0[j]).id,
        ) {
            Task { archived_at: Option::Some(archived_at), ..tasks0[j] }
        } else {
            tasks0[j]
        }) by {
            assert(expanded@.contains(tasks0[j].id) == in_subtrees(tasks0, roots, tasks0[j].id));
        }
        // the graph is unchanged, so uniqueness, parents and groundedness carry over
        lemma_graph_unchanged(tasks0, t1);
        // live tasks keep live parents: a live survivor's parent cannot be in
        // the archived set, else the survivor's own chain would pass a root
        assert forall|j: int|
            0 <= j < t1.len() && live(#[trigger] t1[j]) implies match t1[j].parent_id {
            Option::Some(p) => live_task(t1, p),
            Option::None => true,
        } by {
            match t1[j].parent_id {
                Option::Some(p) => {
                    if live(t1[j]) {
                        assert(!in_subtrees(tasks0, roots, tasks0[j].id));
                        assert(live(tasks0[j]));
                        assert(live_task(tasks0, p));
                        let pi = idx_of(tasks0, p);
                        lemma_idx_unique(tasks0, p, pi);
                        lemma_idx_unique(t1, p, pi);
                        if in_subtrees(tasks0, roots, p) {
                            let w = choose|w: int|
                                0 <= w < roots.len() && on_chain(tasks0, p, roots[w]);
                            let n = choose|n: nat|
                                chain(tasks0, p, n) == Option::<u64>::Some(roots[w]);
                            assert(chain(tasks0, tasks0[j].id, 0) == Option::<u64>::Some(
                                tasks0[j].id,
                            ));
                            assert(chain(tasks0, tasks0[j].id, 1) == parent_step(
                                tasks0,
                                tasks0[j].id,
                            ));
                            lemma_idx_unique(tasks0, tasks0[j].id, j);
                            assert(parent_step(tasks0, tasks0[j].id) == Option::<u64>::Some(p));
                            lemma_chain_add(tasks0, tasks0[j].id, 1, n);
                            assert(chain(tasks0, tasks0[j].id, 1 + n) == Option::<u64>::Some(
                                roots[w],
                            ));
                            assert(on_chain(tasks0, tasks0[j].id, roots[w]));
                            assert(in_subtrees(tasks0, roots, tasks0[j].id));
                        }
                        assert(live(t1[pi]));
                    }
                },
                Option::None => {},
            }
        }
        assert forall|a: int, b: int|
            0 <= a < t1.len() && 0 <= b < t1.len() && live(t1[a]) && live(t1[b]) && t1[a].status
                == Status::Running && t1[b].status == Status::Running implies a == b by {
            assert(at_most_one_running(tasks0));
            assert(t1[a].status == tasks0[a].status);
            assert(t1[b].status == tasks0[b].status);
            assert(live(tasks0[a]) && live(tasks0[b]));
        }
        assert forall|m: int|
            0 <= m < s.events@.len() implies has_task(
            s.tasks@,
            (#[trigger] s.events@[m]).task_id,
        ) by {
            assert(has_task(tasks0, s.events@[m].task_id));
        }
        assert forall|m: int|
            0 <= m < s.task_tags@.len() implies has_task(
            s.tasks@,
            (#[trigger] s.task_tags@[m]).task_id,
        ) && has_tag(s.tags@, s.task_tags@[m].tag_id) by {
            assert(has_task(tasks0, s.task_tags@[m].task_id));
        }
        assert forall|m: int|
            0 <= m < s.suggestions@.len() implies match (#[trigger] s.suggestions@[m]).task_id {
            Option::Some(t) => has_task(s.tasks@, t),
            Option::None => true,
        } by {
            match s.suggestions@[m].task_id {
                Option::Some(t) => {
                    assert(has_task(tasks0, t));
                },
                Option::None => {},
            }
        }
        assert forall|i: int| 0 <= i < t1.len() implies (#[trigger] t1[i]).id
            < s.next_task_id by {
            assert(tasks0[i].id < old(s).next_task_id);
        }
        assert(s.tasks_wf());
        assert(s.tags_wf());
        assert(s.links_wf());
        assert(s.events_wf());
        assert(s.suggestions_wf());
    }
}

/// Whether some link in `links` names the tag `tag_id`.
fn link_names_tag(links: &Vec<TaskTag>, tag_id: u64) -> (r: bool)
    ensures
        r == exists|i: int| 0 <= i < links@.len() && (#[trigger] links@[i]).tag_id == tag_id,
{
    let mut i: usize = 0;
    while i < links.len()
        invariant
            0 <= i <= links@.len(),
            forall|j: int| 0 <= j < i ==> (#[trigger] links@[j]).tag_id != tag_id,
        decreases links@.len() - i,
    {
        if links[i].tag_id == tag_id {
            return true;
        }
        i = i + 1;
    }
    false
}

/// The surviving task rows, in order.
fn filtered_tasks(tasks: &Vec<Task>, expanded: &Vec<u64>, Ghost(roots): Ghost<Seq<u64>>) -> (r: Vec<
    Task,
>)
    requires
        forall|x: u64| expanded@.contains(x) == in_subtrees(tasks@, roots, x),
    ensures
        r@ == remaining_tasks(tasks@, roots),
{
    let ghost tasks0 = tasks@;
    let mut out: Vec<Task> = Vec::new();
    let mut i: usize = 0;
    proof {
        reveal(Seq::filter);
        assert(tasks0.take(0) =~= Seq::<Task>::empty());
    }
    while i < tasks.len()
        invariant
            forall|x: u64| expanded@.contains(x) == in_subtrees(tasks0, roots, x),
            tasks0 == tasks@,
            0 <= i <= tasks0.len(),
            out@ == tasks0.take(i as int).filter(task_kept(tasks0, roots)),
        decreases tasks0.len() - i,
    {
        proof {
            reveal(Seq::filter);
            assert(tasks0.take(i + 1).drop_last() =~= tasks0.take(i as int));
            assert(tasks0.take(i + 1).last() == tasks0[i as int]);
        }
        if !contains_u64(expanded, tasks[i].id) {
            out.push(clone_task_pub(&tasks[i]));
        }
        i = i + 1;
    }
    proof {
        assert(tasks0.take(tasks0.len() as int) =~= tasks0);
    }
    out
}

/// The surviving events, in order.
fn filtered_events(
    events: &Vec<TimeEvent>,
    expanded: &Vec<u64>,
    Ghost(tasks0): Ghost<Seq<Task>>,
    Ghost(roots): Ghost<Seq<u64>>,
) -> (r: Vec<TimeEvent>)
    requires
        forall|x: u64| expanded@.contains(x) == in_subtrees(tasks0, roots, x),
    ensures
        r@ == remaining_events(tasks0, events@, roots),
{
    let ghost events0 = events@;
    let mut out: Vec<TimeEvent> = Vec::new();
    let mut i: usize = 0;
    proof {
        reveal(Seq::filter);
        assert(events0.take(0) =~= Seq::<TimeEvent>::empty());
    }
    while i < events.len()
        invariant
            forall|x: u64| expanded@.contains(x) == in_subtrees(tasks0, roots, x),
            events0 == events@,
            0 <= i <= events0.len(),
            out@ == events0.take(i as int).filter(event_kept(tasks0, roots)),
        decreases events0.len() - i,
    {
        proof {
            reveal(Seq::filter);
            assert(events0.take(i + 1).drop_last() =~= events0.take(i as int));
            assert(events0.take(i + 1).last() == events0[i as int]);
        }
        if !contains_u64(expanded, events[i].task_id) {
            out.push(clone_event(&events[i]));
        }
        i = i + 1;
    }
    proof {
        assert(events0.take(events0.len() as int) =~= events0);
    }
    out
}

/// The surviving links, in order.
fn filtered_links(
    links: &Vec<TaskTag>,
    expanded: &Vec<u64>,
    Ghost(tasks0): Ghost<Seq<Task>>,
    Ghost(roots): Ghost<Seq<u64>>,
) -> (r: Vec<TaskTag>)
    requires
        forall|x: u64| expanded@.contains(x) == in_subtrees(tasks0, roots, x),
    ensures
        r@ == remaining_links(tasks0, links@, roots),
{
    let ghost links0 = links@;
    let mut out: Vec<TaskTag> = Vec::new();
    let mut i: usize = 0;
    proof {
        reveal(Seq::filter);
        assert(links0.take(0) =~= Seq::<TaskTag>::empty());
    }
    while i < links.len()
        invariant
            forall|x: u64| expanded@.contains(x) == in_subtrees(tasks0, roots, x),
            links0 == links@,
            0 <= i <= links0.len(),
            out@ == links0.take(i as int).filter(link_kept(tasks0, roots)),
        decreases links0.len() - i,
    {
        proof {
            reveal(Seq::filter);
            assert(links0.take(i + 1).drop_last() =~= links0.take(i as int));
            assert(links0.take(i + 1).last() == links0[i as int]);
        }
        if !contains_u64(expanded, links[i].task_id) {
            let l = links[i];
            out.push(l);
        }
        i = i + 1;
    }
    proof {
        assert(links0.take(links0.len() as int) =~= links0);
    }
    out
}

/// The surviving suggestions, in order; consumes the table.
fn filtered_suggestions(
    suggestions: Vec<crate::domain::RestSuggestionRecord>,
    expanded: &Vec<u64>,
    Ghost(tasks0): Ghost<Seq<Task>>,
    Ghost(roots): Ghost<Seq<u64>>,
) -> (r: Vec<crate::domain::RestSuggestionRecord>)
    requires
        forall|x: u64| expanded@.contains(x) == in_subtrees(tasks0, roots, x),
    ensures
        r@ == remaining_suggestions(tasks0, suggestions@, roots),
{
    let ghost sugg0 = suggestions@;
    let mut rest = suggestions;
    let mut out: Vec<crate::domain::RestSuggestionRecord> = Vec::new();
    proof {
        reveal(Seq::filter);
        assert(sugg0.take(0) =~= Seq::<crate::domain::RestSuggestionRecord>::empty());
        assert(sugg0.skip(0) =~= sugg0);
    }
    while rest.len() > 0
        invariant
            forall|x: u64| expanded@.contains(x) == in_subtrees(tasks0, roots, x),
            rest@.len() <= sugg0.len(),
            sugg0.skip((sugg0.len() - rest@.len()) as int) == rest@,
            out@ == sugg0.take((sugg0.len() - rest@.len()) as int).filter(
                suggestion_kept(tasks0, roots),
            ),
        decreases rest@.len(),
    {
        let ghost done = (sugg0.len() - rest@.len()) as int;
        let row = rest.remove(0);
        proof {
            reveal(Seq::filter);
            assert(sugg0.take(done + 1).drop_last() =~= sugg0.take(done));
            assert(sugg0.skip(done)[0] == sugg0[done]);
            assert(sugg0.take(done + 1).last() == sugg0[done]);
            assert(row == sugg0[done]);
            assert(sugg0.skip(done).skip(1) =~= sugg0.skip(done + 1));
            assert(rest@ =~= sugg0.skip(done + 1));
        }
        let keep = match row.task_id {
            Option::Some(t) => !contains_u64(expanded, t),
            Option::None => true,
        };
        if keep {
            out.push(row);
        }
    }
    proof {
        assert(sugg0.take(sugg0.len() as int) =~= sugg0);
    }
    out
}

/// The tags some surviving link still names, in order.
fn filtered_tags(tags: &Vec<Tag>, links: &Vec<TaskTag>) -> (r: Vec<Tag>)
    ensures
        r@ == referenced_tags(tags@, links@),
{
    let ghost tags0 = tags@;
    let mut out: Vec<Tag> = Vec::new();
    let mut i: usize = 0;
    proof {
        reveal(Seq::filter);
        assert(tags0.take(0) =~= Seq::<Tag>::empty());
    }
    while i < tags.len()
        invariant
            tags0 == tags@,
            0 <= i <= tags0.len(),
            out@ == tags0.take(i as int).filter(tag_kept(links@)),
        decreases tags0.len() - i,
    {
        proof {
            reveal(Seq::filter);
            assert(tags0.take(i + 1).drop_last() =~= tags0.take(i as int));
            assert(tags0.take(i + 1).last() == tags0[i as int]);
        }
        if link_names_tag(links, tags[i].id) {
            out.push(clone_tag(&tags[i]));
        }
        i = i + 1;
    }
    proof {
        assert(tags0.take(tags0.len() as int) =~= tags0);
    }
    out
}

/// Hard-deletes the expanded subtree set: removes its tasks, their events,
/// their suggestions and their tag links, then sweeps tags that no link names
/// any more. Callers have already ruled out rows that would dangle.
fn hard_delete_task_ids(s: &mut Store, expanded: &Vec<u64>, Ghost(roots): Ghost<Seq<u64>>)
    requires
        old(s).inv(),
        forall|x: u64| expanded@.contains(x) == in_subtrees(old(s).tasks@, roots, x),
        !hard_delete_blocked(old(s).tasks@, roots),
    ensures
        final(s).inv(),
        final(s).tasks@ == remaining_tasks(old(s).tasks@, roots),
        final(s).events@ == remaining_events(old(s).tasks@, old(s).events@, roots),
        final(s).suggestions@ == remaining_suggestions(old(s).tasks@, old(s).suggestions@, roots),
        final(s).task_tags@ == remaining_links(old(s).tasks@, old(s).task_tags@, roots),
        final(s).tags@ == referenced_tags(old(s).tags@, final(s).task_tags@),
        final(s).next_task_id == old(s).next_task_id,
        final(s).next_tag_id == old(s).next_tag_id,
        final(s).next_event_id == old(s).next_event_id,
        final(s).next_suggestion_id == old(s).next_suggestion_id,
{
    let ghost tasks0 = old(s).tasks@;
    let new_tasks = filtered_tasks(&s.tasks, expanded, Ghost(roots));
    let new_events = filtered_events(&s.events, expanded, Ghost(tasks0), Ghost(roots));
    let new_links = filtered_links(&s.task_tags, expanded, Ghost(tasks0), Ghost(roots));
    let mut drained: Vec<crate::domain::RestSuggestionRecord> = Vec::new();
    core::mem::swap(&mut s.suggestions, &mut drained);
    let new_suggestions = filtered_suggestions(drained, expanded, Ghost(tasks0), Ghost(roots));
    s.tasks = new_tasks;
    s.events = new_events;
    s.task_tags = new_links;
    s.suggestions = new_suggestions;
    let new_tags = filtered_tags(&s.tags, &s.task_tags);
    s.tags = new_tags;
    proof {
        lemma_hard_delete_inv(*s, *old(s), roots);
    }
}

/// Re-establishes the store invariant after the five tables were filtered.
#[verifier::rlimit(100)]
proof fn lemma_hard_delete_inv(s: Store, sold: Store, roots: Seq<u64>)
    requires
        sold.inv(),
        !hard_delete_blocked(sold.tasks@, roots),
        s.tasks@ == remaining_tasks(sold.tasks@, roots),
        s.events@ == remaining_events(sold.tasks@, sold.events@, roots),
        s.suggestions@ == remaining_suggestions(sold.tasks@, sold.suggestions@, roots),
        s.task_tags@ == remaining_links(sold.tasks@, sold.task_tags@, roots),
        s.tags@ == referenced_tags(sold.tags@, s.task_tags@),
        s.next_task_id == sold.next_task_id,
        s.next_tag_id == sold.next_tag_id,
        s.next_event_id == sold.next_event_id,
        s.next_suggestion_id == sold.next_suggestion_id,
    ensures
        s.inv(),
{
    let tasks0 = sold.tasks@;
    let events0 = sold.events@;
    let links0 = sold.task_tags@;
    let sugg0 = sold.suggestions@;
    let tags0 = sold.tags@;
    assert(s.tasks@ == tasks0.filter(task_kept(tasks0, roots)));
    assert(s.events@ == events0.filter(event_kept(tasks0, roots)));
    assert(s.task_tags@ == links0.filter(link_kept(tasks0, roots)));
    assert(s.suggestions@ == sugg0.filter(suggestion_kept(tasks0, roots)));
    assert(s.tags@ == tags0.filter(tag_kept(s.task_tags@)));
        let t1 = s.tasks@;
        let e1 = s.events@;
        let l1 = s.task_tags@;
        let g1 = s.suggestions@;
        let tg1 = s.tags@;
        crate::sorting::lemma_filter_ordered(tasks0, task_kept(tasks0, roots));
        crate::sorting::lemma_filter_ordered(events0, event_kept(tasks0, roots));
        crate::sorting::lemma_filter_ordered(links0, link_kept(tasks0, roots));
        crate::sorting::lemma_filter_ordered(sugg0, suggestion_kept(tasks0, roots));
        crate::sorting::lemma_filter_ordered(tags0, tag_kept(l1));
        tasks0.lemma_filter_len(task_kept(tasks0, roots));
        events0.lemma_filter_len(event_kept(tasks0, roots));

        // surviving rows satisfy their predicates
        assert forall|a: int| 0 <= a < t1.len() implies !in_subtrees(
            tasks0,
            roots,
            (#[trigger] t1[a]).id,
        ) by {
            tasks0.lemma_filter_pred(task_kept(tasks0, roots), a);
        }

        // survivors of the old table stay reachable
        assert forall|id: u64|
            has_task(tasks0, id) && !in_subtrees(tasks0, roots, id) implies has_task(
            t1,
            id,
        ) by {
            let w = idx_of(tasks0, id);
            assert(task_kept(tasks0, roots)(tasks0[w]));
            tasks0.lemma_filter_contains(task_kept(tasks0, roots), w);
            let v = choose|v: int| 0 <= v < t1.len() && t1[v] == tasks0[w];
            assert(t1[v].id == id);
        }

        // unique ids in the filtered table
        assert forall|a: int, b: int| 0 <= a < b < t1.len() implies t1[a].id != t1[b].id by {
            let (i0, j0) = choose|i0: int, j0: int|
                0 <= i0 < j0 < tasks0.len() && tasks0[i0] == t1[a] && tasks0[j0] == #[trigger] t1[b];
            assert(tasks0[i0].id != tasks0[j0].id);
        }
        // every surviving row is an old row
        assert forall|a: int| 0 <= a < t1.len() implies exists|i0: int|
            0 <= i0 < tasks0.len() && tasks0[i0] == #[trigger] t1[a] by {
            assert(tasks0.filter(task_kept(tasks0, roots))[a] == t1[a]);
        }
        assert forall|a: int| 0 <= a < t1.len() implies (#[trigger] t1[a]).id
            < s.next_task_id by {
            let i0 = choose|i0: int| 0 <= i0 < tasks0.len() && tasks0[i0] == t1[a];
            assert(tasks0[i0].id < sold.next_task_id);
        }
        // lookups in the filtered table agree with the old one
        assert forall|id: u64| #[trigger] has_task(t1, id) implies has_task(tasks0, id) && task_of(
            t1,
            id,
        ) == task_of(tasks0, id) && !in_subtrees(tasks0, roots, id) by {
            let v = idx_of(t1, id);
            assert(0 <= v < t1.len() && t1[v].id == id);
            let i0 = choose|i0: int| 0 <= i0 < tasks0.len() && tasks0[i0] == t1[v];
            lemma_idx_unique(tasks0, id, i0);
            lemma_idx_unique(t1, id, v);
            tasks0.lemma_filter_pred(task_kept(tasks0, roots), v);
        }
        // parents survive: a dangling parent would have blocked the delete
        assert forall|a: int|
            0 <= a < t1.len() implies match (#[trigger] t1[a]).parent_id {
            Option::Some(p) => has_task(t1, p),
            Option::None => true,
        } by {
            let i0 = choose|i0: int| 0 <= i0 < tasks0.len() && tasks0[i0] == t1[a];
            match tasks0[i0].parent_id {
                Option::Some(p) => {
                    assert(has_task(tasks0, p));
                    if in_subtrees(tasks0, roots, p) {
                        assert(!in_subtrees(tasks0, roots, tasks0[i0].id));
                        assert(hard_delete_blocked(tasks0, roots));
                    }
                },
                Option::None => {},
            }
        }
        assert(parents_exist(t1));
        assert forall|id: u64| #[trigger] grounded_at(t1, id) by {
            assert(grounded_at(tasks0, id));
            let n = choose|n: nat| chain(tasks0, id, n) is None;
            lemma_chain_restrict(tasks0, t1, id, n);
        }
        // live tasks keep live parents
        assert forall|a: int|
            0 <= a < t1.len() && live(#[trigger] t1[a]) implies match t1[a].parent_id {
            Option::Some(p) => live_task(t1, p),
            Option::None => true,
        } by {
            let i0 = choose|i0: int| 0 <= i0 < tasks0.len() && tasks0[i0] == t1[a];
            match t1[a].parent_id {
                Option::Some(p) => {
                    assert(live_task(tasks0, p));
                    if in_subtrees(tasks0, roots, p) {
                        assert(!in_subtrees(tasks0, roots, tasks0[i0].id));
                        assert(hard_delete_blocked(tasks0, roots));
                    }
                    assert(has_task(t1, p));
                    assert(task_of(t1, p) == task_of(tasks0, p));
                },
                Option::None => {},
            }
        }
        assert forall|a: int, b: int|
            0 <= a < t1.len() && 0 <= b < t1.len() && live(t1[a]) && live(t1[b]) && t1[a].status
                == Status::Running && t1[b].status == Status::Running implies a == b by {
            if a != b {
                if a < b {
                    let (i0, j0) = choose|i0: int, j0: int|
                        0 <= i0 < j0 < tasks0.len() && tasks0[i0] == t1[a] && tasks0[j0]
                            == #[trigger] t1[b];
                    assert(at_most_one_running(tasks0));
                } else {
                    let (i0, j0) = choose|i0: int, j0: int|
                        0 <= i0 < j0 < tasks0.len() && tasks0[i0] == t1[b] && tasks0[j0]
                            == #[trigger] t1[a];
                    assert(at_most_one_running(tasks0));
                }
            }
        }
        assert(s.tasks_wf());

        // events
        assert forall|a: int, b: int| 0 <= a < b < e1.len() implies e1[a].id < e1[b].id by {
            let (i0, j0) = choose|i0: int, j0: int|
                0 <= i0 < j0 < events0.len() && events0[i0] == e1[a] && events0[j0]
                    == #[trigger] e1[b];
            assert(events0[i0].id < events0[j0].id);
        }
        assert forall|a: int|
            0 <= a < e1.len() implies (#[trigger] e1[a]).id < s.next_event_id && e1[a].ts >= 0
                && has_task(t1, e1[a].task_id) by {
            let i0 = choose|i0: int| 0 <= i0 < events0.len() && events0[i0] == e1[a];
            assert(events0[i0].id < sold.next_event_id);
            events0.lemma_filter_pred(event_kept(tasks0, roots), a);
            assert(!in_subtrees(tasks0, roots, e1[a].task_id));
            assert(has_task(tasks0, events0[i0].task_id));
        }
        assert(s.events_wf());

        // links
        assert forall|a: int, b: int|
            0 <= a < b < l1.len() implies !(l1[a].task_id == l1[b].task_id && l1[a].tag_id
            == l1[b].tag_id) by {
            let (i0, j0) = choose|i0: int, j0: int|
                0 <= i0 < j0 < links0.len() && links0[i0] == l1[a] && links0[j0]
                    == #[trigger] l1[b];
        }
        assert forall|a: int|
            0 <= a < l1.len() implies has_task(t1, (#[trigger] l1[a]).task_id) && has_tag(
            tg1,
            l1[a].tag_id,
        ) by {
            let i0 = choose|i0: int| 0 <= i0 < links0.len() && links0[i0] == l1[a];
            links0.lemma_filter_pred(link_kept(tasks0, roots), a);
            assert(!in_subtrees(tasks0, roots, l1[a].task_id));
            assert(has_task(tasks0, links0[i0].task_id));
            // the tag this link names survives the sweep, this link being the witness
            let gi = choose|gi: int| 0 <= gi < tags0.len() && tags0[gi].id == l1[a].tag_id;
            assert(tag_kept(l1)(tags0[gi]));
            tags0.lemma_filter_contains(tag_kept(l1), gi);
            let v = choose|v: int| 0 <= v < tg1.len() && tg1[v] == tags0[gi];
            assert(tg1[v].id == l1[a].tag_id);
        }
        assert(s.links_wf());

        // tags
        assert forall|a: int, b: int|
            0 <= a < b < tg1.len() implies tg1[a].id != tg1[b].id && !eq_ci(
            tg1[a].name@,
            tg1[b].name@,
        ) by {
            let (i0, j0) = choose|i0: int, j0: int|
                0 <= i0 < j0 < tags0.len() && tags0[i0] == tg1[a] && tags0[j0] == #[trigger] tg1[b];
        }
        assert forall|a: int| 0 <= a < tg1.len() implies (#[trigger] tg1[a]).id
            < s.next_tag_id by {
            let i0 = choose|i0: int| 0 <= i0 < tags0.len() && tags0[i0] == tg1[a];
        }
        assert(s.tags_wf());

        // suggestions
        assert forall|a: int, b: int| 0 <= a < b < g1.len() implies g1[a].id < g1[b].id && !(
        g1[a].status == SuggestionStatus::Pending && g1[b].status
            == SuggestionStatus::Pending) by {
            let (i0, j0) = choose|i0: int, j0: int|
                0 <= i0 < j0 < sugg0.len() && sugg0[i0] == g1[a] && sugg0[j0] == #[trigger] g1[b];
        }
        assert forall|a: int|
            0 <= a < g1.len() implies 1 <= (#[trigger] g1[a]).id && g1[a].id
                < s.next_suggestion_id && g1[a].deviation_ratio.wf() && match g1[a].task_id {
            Option::Some(t) => has_task(t1, t),
            Option::None => true,
        } by {
            let i0 = choose|i0: int| 0 <= i0 < sugg0.len() && sugg0[i0] == g1[a];
            sugg0.lemma_filter_pred(suggestion_kept(tasks0, roots), a);
            match g1[a].task_id {
                Option::Some(t) => {
                    assert(!in_subtrees(tasks0, roots, t));
                    assert(has_task(tasks0, t));
                },
                Option::None => {},
            }
        }
        assert(s.suggestions_wf());
}


/// Archives or hard-deletes the subtrees under the given roots. Soft deletion
/// stamps `archived_at`; hard deletion removes the tasks with their events,
/// suggestions and tag links, then sweeps orphaned tags. Both are refused
/// while any task in the expanded set is running or paused.
pub fn delete_tasks(s: &mut Store, task_ids: Vec<u64>, hard_delete: bool, now: i64) -> (r: Result<
    (),
    AppError,
>)
    requires
        old(s).inv(),
        now >= 0,
    ensures
        final(s).inv(),
        archived_preserved(old(s).tasks@, final(s).tasks@),
        match r {
            Ok(()) => {
                &&& task_ids@.len() > 0
                &&& (forall|k: int|
                    0 <= k < task_ids@.len() ==> live_task(old(s).tasks@, #[trigger] task_ids@[k]))
                &&& (forall|x: u64|
                    in_subtrees(old(s).tasks@, task_ids@, x) ==> task_of(old(s).tasks@, x).status
                        != Status::Running && task_of(old(s).tasks@, x).status != Status::Paused)
                &&& final(s).next_task_id == old(s).next_task_id
                &&& final(s).next_tag_id == old(s).next_tag_id
                &&& final(s).next_event_id == old(s).next_event_id
                &&& final(s).next_suggestion_id == old(s).next_suggestion_id
                &&& if hard_delete {
                    &&& !hard_delete_blocked(old(s).tasks@, task_ids@)
                    &&& final(s).tasks@ == remaining_tasks(old(s).tasks@, task_ids@)
                    &&& final(s).events@ == remaining_events(
                        old(s).tasks@,
                        old(s).events@,
                        task_ids@,
                    )
                    &&& final(s).suggestions@ == remaining_suggestions(
                        old(s).tasks@,
                        old(s).suggestions@,
                        task_ids@,
                    )
                    &&& final(s).task_tags@ == remaining_links(
                        old(s).tasks@,
                        old(s).task_tags@,
                        task_ids@,
                    )
                    &&& final(s).tags@ == referenced_tags(old(s).tags@, final(s).task_tags@)
                } else {
                    &&& final(s).tasks@.len() == old(s).tasks@.len()
                    &&& (forall|j: int|
                        0 <= j < old(s).tasks@.len() ==> final(s).tasks@[j] == (if in_subtrees(
                            old(s).tasks@,
                            task_ids@,
                            (#[trigger] old(s).tasks@[j]).id,
                        ) {
                            Task { archived_at: Option::Some(now), ..old(s).tasks@[j] }
                        } else {
                            old(s).tasks@[j]
                        }))
                    &&& final(s).events == old(s).events
                    &&& final(s).tags == old(s).tags
                    &&& final(s).task_tags == old(s).task_tags
                    &&& final(s).suggestions == old(s).suggestions
                }
            },
            Err(e) => {
                &&& *final(s) == *old(s)
                &&& if task_ids@.len() == 0 {
                    e == AppError::InvalidInput
                } else if (exists|k: int|
                    0 <= k < task_ids@.len() && !live_task(
                        old(s).tasks@,
                        #[trigger] task_ids@[k],
                    )) {
                    e matches AppError::NotFound { id: t } && exists|k: int|
                        0 <= k < task_ids@.len() && #[trigger] task_ids@[k] == t && !live_task(
                            old(s).tasks@,
                            t,
                        )
                } else if (exists|x: u64|
                    #[trigger] in_subtrees(old(s).tasks@, task_ids@, x) && (task_of(
                        old(s).tasks@,
                        x,
                    ).status == Status::Running || task_of(old(s).tasks@, x).status
                        == Status::Paused)) {
                    e matches AppError::Conflict { task_id: t, status: st } && in_subtrees(
                        old(s).tasks@,
                        task_ids@,
                        t,
                    ) && task_of(old(s).tasks@, t).status == st && (st == Status::Running || st
                        == Status::Paused)
                } else {
                    e == AppError::Storage && hard_delete && hard_delete_blocked(
                        old(s).tasks@,
                        task_ids@,
                    )
                }
            },
        },
{
    if task_ids.len() == 0 {
        return Err(AppError::InvalidInput);
    }
    let expanded = match expand_unique_subtree_ids(s, &task_ids) {
        Ok(ex) => ex,
        Err(e) => {
            return Err(e);
        },
    };
    proof {
        assert forall|m: int| 0 <= m < expanded@.len() implies live_task(
            s.tasks@,
            #[trigger] expanded@[m],
        ) by {
            assert(expanded@.contains(expanded@[m]));
        }
    }
    match find_active_in_subtree(&s.tasks, &expanded) {
        Option::Some(blocker) => {
            proof {
                assert(expanded@.contains(blocker.0));
            }
            return Err(AppError::Conflict { task_id: blocker.0, status: blocker.1 });
        },
        Option::None => {
            proof {
                assert forall|x: u64|
                    #[trigger] in_subtrees(s.tasks@, task_ids@, x) implies task_of(
                    s.tasks@,
                    x,
                ).status != Status::Running && task_of(s.tasks@, x).status != Status::Paused by {
                    assert(expanded@.contains(x));
                    let m = choose|m: int| 0 <= m < expanded@.len() && expanded@[m] == x;
                }
            }
        },
    }
    if hard_delete {
        if check_hard_delete_blocked(&s.tasks, &expanded, Ghost(task_ids@)) {
            return Err(AppError::Storage);
        }
        hard_delete_task_ids(s, &expanded, Ghost(task_ids@));
        proof {
            crate::sorting::lemma_filter_ordered(
                old(s).tasks@,
                task_kept(old(s).tasks@, task_ids@),
            );
            assert forall|j: int|
                0 <= j < old(s).tasks@.len() && (#[trigger] old(s).tasks@[j]).archived_at
                    is Some implies exists|m: int|
                0 <= m < final(s).tasks@.len() && #[trigger] final(s).tasks@[m] == old(
                    s,
                ).tasks@[j] by {
                assert(!in_subtrees(old(s).tasks@, task_ids@, old(s).tasks@[j].id));
                old(s).tasks@.lemma_filter_contains(
                    task_kept(old(s).tasks@, task_ids@),
                    j,
                );
                let w = choose|w: int|
                    0 <= w < s.tasks@.len() && s.tasks@[w] == old(s).tasks@[j];
            }
        }
    } else {
        archive_task_ids(s, &expanded, Ghost(task_ids@), now);
        proof {
            assert forall|j: int|
                0 <= j < old(s).tasks@.len() && (#[trigger] old(s).tasks@[j]).archived_at
                    is Some implies exists|m: int|
                0 <= m < final(s).tasks@.len() && #[trigger] final(s).tasks@[m] == old(
                    s,
                ).tasks@[j] by {
                assert(!in_subtrees(old(s).tasks@, task_ids@, old(s).tasks@[j].id));
                assert(s.tasks@[j] == old(s).tasks@[j]);
            }
        }
    }
    Ok(())
}

/// Archives one task's subtree: shorthand for a soft deletion of that root.
pub fn archive_task(s: &mut Store, task_id: u64, now: i64) -> (r: Result<(), AppError>)
    requires
        old(s).inv(),
        now >= 0,
    ensures
        final(s).inv(),
        archived_preserved(old(s).tasks@, final(s).tasks@),
        match r {
            Ok(()) => {
                &&& live_task(old(s).tasks@, task_id)
                &&& (forall|x: u64|
                    in_subtrees(old(s).tasks@, seq![task_id], x) ==> task_of(
                        old(s).tasks@,
                        x,
                    ).status != Status::Running && task_of(old(s).tasks@, x).status
                        != Status::Paused)
                &&& final(s).tasks@.len() == old(s).tasks@.len()
                &&& (forall|j: int|
                    0 <= j < old(s).tasks@.len() ==> final(s).tasks@[j] == (if in_subtrees(
                        old(s).tasks@,
                        seq![task_id],
                        (#[trigger] old(s).tasks@[j]).id,
                    ) {
                        Task { archived_at: Option::Some(now), ..old(s).tasks@[j] }
                    } else {
                        old(s).tasks@[j]
                    }))
                &&& final(s).events == old(s).events
                &&& final(s).tags == old(s).tags
                &&& final(s).task_tags == old(s).task_tags
                &&& final(s).suggestions == old(s).suggestions
                &&& final(s).next_task_id == old(s).next_task_id
                &&& final(s).next_tag_id == old(s).next_tag_id
                &&& final(s).next_event_id == old(s).next_event_id
                &&& final(s).next_suggestion_id == old(s).next_suggestion_id
            },
            Err(e) => {
                &&& *final(s) == *old(s)
                &&& if !live_task(old(s).tasks@, task_id) {
                    e == (AppError::NotFound { id: task_id })
                } else {
                    e matches AppError::Conflict { task_id: t, status: st } && in_subtrees(
                        old(s).tasks@,
                        seq![task_id],
                        t,
                    ) && task_of(old(s).tasks@, t).status == st && (st == Status::Running || st
                        == Status::Paused)
                }
            },
        },
{
    let mut roots: Vec<u64> = Vec::new();
    roots.push(task_id);
    proof {
        assert(roots@ =~= seq![task_id]);
    }
    let r = delete_tasks(s, roots, false, now);
    proof {
        match r {
            Ok(()) => {
                assert(seq![task_id][0] == task_id);
                assert(live_task(old(s).tasks@, task_id));
            },
            Err(e) => {
                if !live_task(old(s).tasks@, task_id) {
                } else {
                    assert(!(exists|k: int|
                        0 <= k < seq![task_id].len() && !live_task(
                            old(s).tasks@,
                            #[trigger] seq![task_id][k],
                        ))) by {
                        assert(seq![task_id][0] == task_id);
                    }
                }
            },
        }
    }
    r
}

/// Moves a task under a new parent (or to the top level): refused for the
/// task itself, while its subtree has a running or paused task, and whenever
/// the new parent sits inside that subtree. Appends a `reparent` event
/// recording both parents. Re-attaching to the current parent is a no-op.
pub fn reparent_task(s: &mut Store, task_id: u64, new_parent_id: Option<u64>, now: i64) -> (r:
    Result<(), AppError>)
    requires
        old(s).inv(),
        now >= 0,
    ensures
        final(s).inv(),
        archived_preserved(old(s).tasks@, final(s).tasks@),
        match r {
            Ok(()) => {
                &&& live_task(old(s).tasks@, task_id)
                &&& new_parent_id != Option::Some(task_id)
                &&& if task_of(old(s).tasks@, task_id).parent_id == new_parent_id {
                    *final(s) == *old(s)
                } else {
                    let i = idx_of(old(s).tasks@, task_id);
                    &&& (forall|x: u64|
                        in_subtrees(old(s).tasks@, seq![task_id], x) ==> task_of(
                            old(s).tasks@,
                            x,
                        ).status != Status::Running && task_of(old(s).tasks@, x).status
                            != Status::Paused)
                    &&& (match new_parent_id {
                        Option::Some(p) => live_task(old(s).tasks@, p) && !on_chain(
                            old(s).tasks@,
                            p,
                            task_id,
                        ),
                        Option::None => true,
                    })
                    &&& !spec_store_full(*old(s))
                    &&& final(s).tasks@.len() == old(s).tasks@.len()
                    &&& (forall|j: int|
                        0 <= j < old(s).tasks@.len() && j != i ==> final(s).tasks@[j] == old(
                            s,
                        ).tasks@[j])
                    &&& final(s).tasks@[i] == (Task {
                        parent_id: new_parent_id,
                        ..old(s).tasks@[i]
                    })
                    &&& one_event_appended(
                        *old(s),
                        *final(s),
                        task_id,
                        EventType::Reparent,
                        now,
                        Option::Some(
                            Payload::Reparent {
                                old_parent_id: task_of(old(s).tasks@, task_id).parent_id,
                                new_parent_id,
                            },
                        ),
                    )
                    &&& final(s).suggestions == old(s).suggestions
                    &&& final(s).next_suggestion_id == old(s).next_suggestion_id
                    &&& unchanged_tags(*old(s), *final(s))
                }
            },
            Err(e) => {
                &&& *final(s) == *old(s)
                &&& if !live_task(old(s).tasks@, task_id) {
                    e == (AppError::NotFound { id: task_id })
                } else if new_parent_id == Option::Some(task_id) {
                    e == AppError::InvalidInput
                } else if (exists|x: u64|
                    #[trigger] in_subtrees(old(s).tasks@, seq![task_id], x) && (task_of(
                        old(s).tasks@,
                        x,
                    ).status == Status::Running || task_of(old(s).tasks@, x).status
                        == Status::Paused)) {
                    e matches AppError::Conflict { task_id: t, status: st } && in_subtrees(
                        old(s).tasks@,
                        seq![task_id],
                        t,
                    ) && task_of(old(s).tasks@, t).status == st && (st == Status::Running || st
                        == Status::Paused)
                } else if (match new_parent_id {
                    Option::Some(p) => !live_task(old(s).tasks@, p),
                    Option::None => false,
                }) {
                    e == (AppError::NotFound { id: new_parent_id->Some_0 })
                } else if (match new_parent_id {
                    Option::Some(p) => on_chain(old(s).tasks@, p, task_id),
                    Option::None => false,
                }) {
                    e == (AppError::CycleConflict { task_id: new_parent_id->Some_0 })
                } else {
                    e == AppError::Storage && spec_store_full(*old(s))
                }
            },
        },
{
    let i = match find_live_index(&s.tasks, task_id) {
        Option::Some(i) => i,
        Option::None => {
            return Err(AppError::NotFound { id: task_id });
        },
    };
    let same_parent = match (new_parent_id, s.tasks[i].parent_id) {
        (Option::Some(a), Option::Some(b)) => a == b,
        (Option::None, Option::None) => true,
        _ => false,
    };
    match new_parent_id {
        Option::Some(p) => {
            if p == task_id {
                return Err(AppError::InvalidInput);
            }
        },
        Option::None => {},
    }
    if same_parent {
        return Ok(());
    }
    let old_parent_id = s.tasks[i].parent_id;
    let subtree = collect_subtree_ids(&s.tasks, task_id);
    proof {
        assert forall|m: int| 0 <= m < subtree@.len() implies live_task(
            s.tasks@,
            #[trigger] subtree@[m],
        ) by {}
    }
    match find_active_in_subtree(&s.tasks, &subtree) {
        Option::Some(blocker) => {
            proof {
                assert(subtree@.contains(blocker.0));
                assert(in_subtrees(s.tasks@, seq![task_id], blocker.0)) by {
                    assert(seq![task_id][0] == task_id);
                }
            }
            return Err(AppError::Conflict { task_id: blocker.0, status: blocker.1 });
        },
        Option::None => {
            proof {
                assert forall|x: u64|
                    #[trigger] in_subtrees(s.tasks@, seq![task_id], x) implies task_of(
                    s.tasks@,
                    x,
                ).status != Status::Running && task_of(s.tasks@, x).status != Status::Paused by {
                    let k = choose|k: int|
                        0 <= k < seq![task_id].len() && on_chain(s.tasks@, x, seq![task_id][k]);
                    assert(seq![task_id][k] == task_id);
                    assert(subtree@.contains(x));
                    let m = choose|m: int| 0 <= m < subtree@.len() && subtree@[m] == x;
                }
            }
        },
    }
    match new_parent_id {
        Option::Some(p) => {
            if find_live_index(&s.tasks, p).is_none() {
                return Err(AppError::NotFound { id: p });
            }
            if chain_reaches(&s.tasks, p, task_id) {
                return Err(AppError::CycleConflict { task_id: p });
            }
        },
        Option::None => {},
    }
    if store_full(s) {
        return Err(AppError::Storage);
    }
    let ghost before = s.tasks@;
    let row = &mut s.tasks[i];
    row.parent_id = new_parent_id;
    proof {
        lemma_reparent_inv(*s, *old(s), task_id, new_parent_id, i as int);
    }


    append_event(
        s,
        task_id,
        EventType::Reparent,
        now,
        Option::Some(Payload::Reparent { old_parent_id, new_parent_id }),
    );
    Ok(())
}

/// Re-establishes the store invariant after one task's parent pointer moved to
/// a parent outside its subtree.
#[verifier::rlimit(100)]
proof fn lemma_reparent_inv(smid: Store, sold: Store, task_id: u64, new_parent_id: Option<u64>, i: int)
    requires
        sold.inv(),
        0 <= i < sold.tasks@.len(),
        sold.tasks@[i].id == task_id,
        live(sold.tasks@[i]),
        match new_parent_id {
            Option::Some(p) => p != task_id && live_task(sold.tasks@, p) && !on_chain(
                sold.tasks@,
                p,
                task_id,
            ),
            Option::None => true,
        },
        smid.tasks@ == sold.tasks@.update(i, Task { parent_id: new_parent_id, ..sold.tasks@[i] }),
        smid.events == sold.events,
        smid.tags == sold.tags,
        smid.task_tags == sold.task_tags,
        smid.suggestions == sold.suggestions,
        smid.next_task_id == sold.next_task_id,
        smid.next_tag_id == sold.next_tag_id,
        smid.next_event_id == sold.next_event_id,
        smid.next_suggestion_id == sold.next_suggestion_id,
    ensures
        smid.inv(),
        archived_preserved(sold.tasks@, smid.tasks@),
        has_task(smid.tasks@, task_id),
{
    let before = sold.tasks@;
    let after = smid.tasks@;
        // lookups keyed by id are unchanged
        assert forall|y: u64| #[trigger] has_task(after, y) == has_task(before, y) by {
            if has_task(before, y) {
                let w = idx_of(before, y);
                assert(after[w].id == y);
            }
            if has_task(after, y) {
                let w = choose|w: int| 0 <= w < after.len() && after[w].id == y;
                assert(before[w].id == y);
            }
        }
        assert(unique_ids(after));
        assert forall|y: u64| has_task(before, y) implies #[trigger] idx_of(after, y) == idx_of(
            before,
            y,
        ) by {
            let w = idx_of(before, y);
            assert(after[w].id == y);
            lemma_idx_unique(after, y, w);
        }
        // parent steps agree away from the reparented task
        assert forall|y: u64| y != task_id implies #[trigger] parent_step(after, y) == parent_step(
            before,
            y,
        ) by {
            if has_task(before, y) {
                let w = idx_of(before, y);
                assert(idx_of(after, y) == w);
                assert(w != i as int) by {
                    if w == i as int {
                        assert(before[w].id == task_id);
                    }
                }
            }
        }
        assert(parents_exist(after)) by {
            assert forall|j: int|
                0 <= j < after.len() implies match #[trigger] after[j].parent_id {
                Option::Some(q) => has_task(after, q),
                Option::None => true,
            } by {
                if j != i as int {
                    match before[j].parent_id {
                        Option::Some(q) => {
                            assert(has_task(before, q));
                        },
                        Option::None => {},
                    }
                } else {
                    match new_parent_id {
                        Option::Some(q) => {
                            assert(has_task(before, q));
                        },
                        Option::None => {},
                    }
                }
            }
        }
        // the new graph stays grounded: the new parent's old chain avoids the
        // task, so every chain either avoids the task (and is the old chain)
        // or runs through it into that unchanged chain
        lemma_idx_unique(after, task_id, i as int);
        assert(task_of(after, task_id).parent_id == new_parent_id);
        assert forall|x: u64| #[trigger] grounded_at(after, x) by {
            if forall|m: nat| #[trigger] chain(after, x, m) != Option::<u64>::Some(task_id) {
                assert(grounded_at(before, x));
                let n = choose|n: nat| chain(before, x, n) is None;
                lemma_chain_agree(after, before, task_id, x, n);
                assert(chain(before, x, n) == chain(after, x, n));
            } else {
                let m0 = choose|m: nat|
                    #[trigger] chain(after, x, m) == Option::<u64>::Some(task_id);
                match new_parent_id {
                    Option::None => {
                        assert(chain(after, task_id, 0) == Option::<u64>::Some(task_id));
                        assert(chain(after, task_id, 1) == parent_step(after, task_id));
                        assert(chain(after, task_id, 1) is None);
                        lemma_chain_add(after, x, m0, 1);
                        assert(chain(after, x, m0 + 1) is None);
                    },
                    Option::Some(p) => {
                        // the old chain from p never reaches the task
                        assert(!on_chain(before, p, task_id));
                        assert(grounded_at(before, p));
                        let np = choose|np: nat| chain(before, p, np) is None;
                        assert forall|q: nat| q < np implies #[trigger] chain(before, p, q)
                            != Option::<u64>::Some(task_id) by {
                            if chain(before, p, q) == Option::<u64>::Some(task_id) {
                                assert(on_chain(before, p, task_id));
                            }
                        }
                        lemma_chain_agree(before, after, task_id, p, np);
                        assert(chain(after, p, np) is None);
                        assert(chain(after, task_id, 0) == Option::<u64>::Some(task_id));
                        assert(chain(after, task_id, 1) == parent_step(after, task_id));
                        assert(chain(after, task_id, 1) == Option::<u64>::Some(p));
                        lemma_chain_add(after, task_id, 1, np);
                        assert(chain(after, task_id, 1 + np) is None);
                        lemma_chain_add(after, x, m0, 1 + np);
                        assert(chain(after, x, m0 + (1 + np)) is None);
                    },
                }
            }
        }
        // live tasks keep live parents
        assert forall|j: int|
            0 <= j < after.len() && live(#[trigger] after[j]) implies match after[j].parent_id {
            Option::Some(q) => live_task(after, q),
            Option::None => true,
        } by {
            if j != i as int {
                match after[j].parent_id {
                    Option::Some(q) => {
                        if live(after[j]) {
                            assert(live(before[j]));
                            assert(live_task(before, q));
                            assert(idx_of(after, q) == idx_of(before, q));
                        }
                    },
                    Option::None => {},
                }
            } else {
                match new_parent_id {
                    Option::Some(q) => {
                        assert(live_task(before, q));
                        assert(idx_of(after, q) == idx_of(before, q));
                    },
                    Option::None => {},
                }
            }
        }
        assert(at_most_one_running(after)) by {
            assert forall|a: int, b: int|
                0 <= a < after.len() && 0 <= b < after.len() && live(after[a]) && live(after[b])
                    && after[a].status == Status::Running && after[b].status
                    == Status::Running implies a == b by {
                assert(live(before[a]) && live(before[b]));
                assert(before[a].status == Status::Running && before[b].status == Status::Running);
                assert(at_most_one_running(before));
            }
        }
        assert forall|m: int|
            0 <= m < smid.events@.len() implies has_task(
            after,
            (#[trigger] smid.events@[m]).task_id,
        ) by {
            assert(has_task(before, smid.events@[m].task_id));
        }
        assert forall|m: int|
            0 <= m < smid.task_tags@.len() implies has_task(
            after,
            (#[trigger] smid.task_tags@[m]).task_id,
        ) && has_tag(smid.tags@, smid.task_tags@[m].tag_id) by {
            assert(has_task(before, smid.task_tags@[m].task_id));
        }
        assert forall|m: int|
            0 <= m < smid.suggestions@.len() implies match (#[trigger] smid.suggestions@[m]).task_id {
            Option::Some(t) => has_task(after, t),
            Option::None => true,
        } by {
            match smid.suggestions@[m].task_id {
                Option::Some(t) => {
                    assert(has_task(before, t));
                },
                Option::None => {},
            }
        }
        lemma_archived_preserved_pointwise(before, after);
        assert(has_task(after, task_id));
    assert forall|j: int| 0 <= j < after.len() implies (#[trigger] after[j]).id
        < smid.next_task_id by {
        assert(before[j].id < sold.next_task_id);
    }
    assert(smid.tasks_wf());
    assert(smid.tags_wf());
    assert(smid.links_wf());
    assert(smid.events_wf());
    assert(smid.suggestions_wf());
}

} // verus!
