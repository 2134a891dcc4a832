//! The in-memory image of the persistent store: the five tables, the id
//! counters, and the cross-table invariant that every operation preserves.
use vstd::prelude::*;

use crate::domain::{RestSuggestionRecord, SuggestionStatus, Status, Tag, Task, TaskTag, TimeEvent};
use crate::forest::{grounded, has_task, idx_of, parents_exist, task_of, unique_ids};
use crate::textutil::eq_ci;

verus! {

/// The task is not archived.
pub open spec fn live(t: Task) -> bool {
    t.archived_at is None
}

/// A task with id `id` exists and is not archived.
pub open spec fn live_task(s: Seq<Task>, id: u64) -> bool {
    has_task(s, id) && live(task_of(s, id))
}

/// At most one non-archived task is running.
pub open spec fn at_most_one_running(s: Seq<Task>) -> bool {
    forall|i: int, j: int|
        0 <= i < s.len() && 0 <= j < s.len() && live(s[i]) && live(s[j]) && s[i].status
            == Status::Running && s[j].status == Status::Running ==> i == j
}

/// Some tag in `s` carries id `id`.
pub open spec fn has_tag(s: Seq<Tag>, id: u64) -> bool {
    exists|i: int| 0 <= i < s.len() && s[i].id == id
}

/// The five tables and the id counters. Ids are assigned from the counters and
/// never reused, which is what makes them fresh.
pub struct Store {
    pub tasks: Vec<Task>,
    pub tags: Vec<Tag>,
    pub task_tags: Vec<TaskTag>,
    pub events: Vec<TimeEvent>,
    pub suggestions: Vec<RestSuggestionRecord>,
    pub next_task_id: u64,
    pub next_tag_id: u64,
    pub next_event_id: u64,
    pub next_suggestion_id: u64,
}

impl Store {
    /// Task-table invariant: unique fresh ids, parents that exist, a grounded
    /// (hence acyclic) parent graph, live parents for live tasks, and at most
    /// one running task.
    pub open spec fn tasks_wf(self) -> bool {
        &&& unique_ids(self.tasks@)
        &&& parents_exist(self.tasks@)
        &&& grounded(self.tasks@)
        &&& forall|i: int| 0 <= i < self.tasks@.len() ==> #[trigger] self.tasks@[i].id
            < self.next_task_id
        &&& forall|i: int|
            0 <= i < self.tasks@.len() && live(#[trigger] self.tasks@[i]) ==> match self.tasks@[i].parent_id {
                Option::Some(p) => live_task(self.tasks@, p),
                Option::None => true,
            }
        &&& at_most_one_running(self.tasks@)
    }

    /// Tag-table invariant: unique fresh ids and names unique up to ASCII case.
    pub open spec fn tags_wf(self) -> bool {
        &&& forall|i: int, j: int|
            0 <= i < j < self.tags@.len() ==> self.tags@[i].id != self.tags@[j].id
        &&& forall|i: int| 0 <= i < self.tags@.len() ==> #[trigger] self.tags@[i].id
            < self.next_tag_id
        &&& forall|i: int, j: int|
            0 <= i < j < self.tags@.len() ==> !eq_ci(self.tags@[i].name@, self.tags@[j].name@)
    }

    /// Link-table invariant: unique pairs that reference existing rows.
    pub open spec fn links_wf(self) -> bool {
        &&& forall|i: int, j: int|
            0 <= i < j < self.task_tags@.len() ==> !(self.task_tags@[i].task_id
                == self.task_tags@[j].task_id && self.task_tags@[i].tag_id
                == self.task_tags@[j].tag_id)
        &&& forall|i: int|
            0 <= i < self.task_tags@.len() ==> has_task(
                self.tasks@,
                (#[trigger] self.task_tags@[i]).task_id,
            ) && has_tag(self.tags@, self.task_tags@[i].tag_id)
    }

    /// Event-log invariant: strictly increasing fresh ids, non-negative
    /// timestamps, and owners that exist.
    pub open spec fn events_wf(self) -> bool {
        &&& self.events@.len() <= 0x1000_0000_0000_0000
        &&& forall|i: int, j: int|
            0 <= i < j < self.events@.len() ==> self.events@[i].id < self.events@[j].id
        &&& forall|i: int| 0 <= i < self.events@.len() ==> (#[trigger] self.events@[i]).id
            < self.next_event_id && self.events@[i].ts >= 0 && has_task(
            self.tasks@,
            self.events@[i].task_id,
        )
    }

    /// Suggestion-table invariant: strictly increasing fresh positive ids, at
    /// most one pending row, well-formed ratios, and task references that
    /// exist.
    pub open spec fn suggestions_wf(self) -> bool {
        &&& forall|i: int, j: int|
            0 <= i < j < self.suggestions@.len() ==> self.suggestions@[i].id
                < self.suggestions@[j].id
        &&& forall|i: int|
            0 <= i < self.suggestions@.len() ==> 1 <= (#[trigger] self.suggestions@[i]).id
                && self.suggestions@[i].id < self.next_suggestion_id
                && self.suggestions@[i].deviation_ratio.wf() && match self.suggestions@[i].task_id {
                Option::Some(t) => has_task(self.tasks@, t),
                Option::None => true,
            }
        &&& forall|i: int, j: int|
            0 <= i < j < self.suggestions@.len() ==> !(self.suggestions@[i].status
                == SuggestionStatus::Pending && self.suggestions@[j].status
                == SuggestionStatus::Pending)
    }

    /// The whole store invariant.
    pub open spec fn inv(self) -> bool {
        &&& self.tasks_wf()
        &&& self.tags_wf()
        &&& self.links_wf()
        &&& self.events_wf()
        &&& self.suggestions_wf()
        &&& self.next_suggestion_id >= 1
    }

    /// An empty store.
    pub fn new() -> (s: Store)
        ensures
            s.inv(),
            s.tasks@.len() == 0,
            s.tags@.len() == 0,
            s.task_tags@.len() == 0,
            s.events@.len() == 0,
            s.suggestions@.len() == 0,
    {
        let s = Store {
            tasks: Vec::new(),
            tags: Vec::new(),
            task_tags: Vec::new(),
            events: Vec::new(),
            suggestions: Vec::new(),
            next_task_id: 1,
            next_tag_id: 1,
            next_event_id: 1,
            next_suggestion_id: 1,
        };
        proof {
            assert forall|id: u64| #[trigger] crate::forest::grounded_at(s.tasks@, id) by {
                assert(crate::forest::chain(s.tasks@, id, 0) == Option::<u64>::Some(id));
                assert(crate::forest::chain(s.tasks@, id, 1) is None);
            }
        }
        s
    }
}

/// Index of the task with id `id`, archived or not.
pub fn find_task_index(tasks: &Vec<Task>, id: u64) -> (r: Option<usize>)
    ensures
        match r {
            Option::Some(i) => i < tasks@.len() && tasks@[i as int].id == id,
            Option::None => !has_task(tasks@, id),
        },
{
    let mut i: usize = 0;
    while i < tasks.len()
        invariant
            0 <= i <= tasks@.len(),
            forall|j: int| 0 <= j < i ==> tasks@[j].id != id,
        decreases tasks@.len() - i,
    {
        if tasks[i].id == id {
            return Option::Some(i);
        }
        i = i + 1;
    }
    Option::None
}

/// Index of the non-archived task with id `id`; `None` when the task is
/// missing or archived.
pub fn find_live_index(tasks: &Vec<Task>, id: u64) -> (r: Option<usize>)
    requires
        unique_ids(tasks@),
    ensures
        match r {
            Option::Some(i) => i < tasks@.len() && tasks@[i as int].id == id && live(
                tasks@[i as int],
            ) && idx_of(tasks@, id) == i,
            Option::None => !live_task(tasks@, id),
        },
{
    match find_task_index(tasks, id) {
        Option::Some(i) => {
            proof {
                crate::forest::lemma_idx_unique(tasks@, id, i as int);
            }
            if tasks[i].archived_at.is_none() {
                Option::Some(i)
            } else {
                Option::None
            }
        },
        Option::None => Option::None,
    }
}

/// Id of the unique non-archived running task, if any.
pub fn find_running_task(tasks: &Vec<Task>) -> (r: Option<u64>)
    ensures
        match r {
            Option::Some(id) => exists|i: int|
                0 <= i < tasks@.len() && (#[trigger] tasks@[i]).id == id && live(tasks@[i])
                    && tasks@[i].status == Status::Running,
            Option::None => forall|i: int|
                0 <= i < tasks@.len() ==> !(live(#[trigger] tasks@[i]) && tasks@[i].status
                    == Status::Running),
        },
{
    let mut i: usize = 0;
    while i < tasks.len()
        invariant
            0 <= i <= tasks@.len(),
            forall|j: int|
                0 <= j < i ==> !(live(#[trigger] tasks@[j]) && tasks@[j].status
                    == Status::Running),
        decreases tasks@.len() - i,
    {
        if tasks[i].archived_at.is_none() {
            match tasks[i].status {
                Status::Running => {
                    return Option::Some(tasks[i].id);
                },
                _ => {},
            }
        }
        i = i + 1;
    }
    Option::None
}

/// Whether `e` is a focus event (`start` or `resume`).
pub open spec fn is_focus_event(e: TimeEvent) -> bool {
    e.event_type == crate::domain::EventType::Start || e.event_type
        == crate::domain::EventType::Resume
}

/// `(ts, id)` order: `a` is strictly later than `b`.
pub open spec fn event_after(a: TimeEvent, b: TimeEvent) -> bool {
    a.ts > b.ts || (a.ts == b.ts && a.id > b.id)
}

/// The latest (by `(ts, id)`) focus event of the log.
pub open spec fn focus_best(es: Seq<TimeEvent>) -> Option<TimeEvent>
    decreases es.len(),
{
    if es.len() == 0 {
        Option::None
    } else {
        let prev = focus_best(es.drop_last());
        let e = es.last();
        if !is_focus_event(e) {
            prev
        } else {
            match prev {
                Option::None => Option::Some(e),
                Option::Some(b) => if event_after(e, b) {
                    Option::Some(e)
                } else {
                    Option::Some(b)
                },
            }
        }
    }
}

/// The latest focus event, when there is one, is an event of the log.
pub proof fn lemma_focus_best_member(es: Seq<TimeEvent>)
    ensures
        match focus_best(es) {
            Option::Some(e) => es.contains(e),
            Option::None => true,
        },
    decreases es.len(),
{
    if es.len() > 0 {
        lemma_focus_best_member(es.drop_last());
        match focus_best(es) {
            Option::Some(e) => {
                if is_focus_event(es.last()) && (focus_best(es.drop_last()) is None || event_after(
                    es.last(),
                    focus_best(es.drop_last())->Some_0,
                )) {
                    assert(es[es.len() - 1] == es.last());
                } else {
                    assert(es.drop_last().contains(e));
                    let k = choose|k: int| 0 <= k < es.drop_last().len() && es.drop_last()[k] == e;
                    assert(es[k] == e);
                }
            },
            Option::None => {},
        }
    }
}

/// The task of the latest focus event: the "previous focus task" read before
/// start and resume transitions.
pub open spec fn latest_focus_spec(es: Seq<TimeEvent>) -> Option<u64> {
    match focus_best(es) {
        Option::Some(e) => Option::Some(e.task_id),
        Option::None => Option::None,
    }
}

/// Scans the log for the latest (by `(ts, id)`) `start` or `resume` event.
pub fn latest_focus_task(events: &Vec<TimeEvent>) -> (r: Option<u64>)
    ensures
        r == latest_focus_spec(events@),
{
    let mut best: Option<(i64, u64, u64)> = Option::None;
    let mut i: usize = 0;
    while i < events.len()
        invariant
            0 <= i <= events@.len(),
            match best {
                Option::Some(b) => {
                    let fb = focus_best(events@.take(i as int));
                    fb is Some && b.0 == fb->Some_0.ts && b.1 == fb->Some_0.id && b.2
                        == fb->Some_0.task_id
                },
                Option::None => focus_best(events@.take(i as int)) is None,
            },
        decreases events@.len() - i,
    {
        proof {
            assert(events@.take(i + 1).drop_last() =~= events@.take(i as int));
            assert(events@.take(i + 1).last() == events@[i as int]);
        }
        let e = &events[i];
        let focus = match e.event_type {
            crate::domain::EventType::Start => true,
            crate::domain::EventType::Resume => true,
            _ => false,
        };
        if focus {
            best = match best {
                Option::None => Option::Some((e.ts, e.id, e.task_id)),
                Option::Some(b) => {
                    if e.ts > b.0 || (e.ts == b.0 && e.id > b.1) {
                        Option::Some((e.ts, e.id, e.task_id))
                    } else {
                        Option::Some(b)
                    }
                },
            };
        }
        i = i + 1;
    }
    proof {
        assert(events@.take(events@.len() as int) =~= events@);
    }
    match best {
        Option::Some(b) => Option::Some(b.2),
        Option::None => Option::None,
    }
}

/// The latest (by `(ts, id)`) event belonging to task `tid`.
pub open spec fn last_event_of(es: Seq<TimeEvent>, tid: u64) -> Option<TimeEvent>
    decreases es.len(),
{
    if es.len() == 0 {
        Option::None
    } else {
        let prev = last_event_of(es.drop_last(), tid);
        let e = es.last();
        if e.task_id != tid {
            prev
        } else {
            match prev {
                Option::None => Option::Some(e),
                Option::Some(b) => if event_after(e, b) {
                    Option::Some(e)
                } else {
                    Option::Some(b)
                },
            }
        }
    }
}

/// Scans the log for the latest (by `(ts, id)`) event of one task, returning
/// its index.
pub fn latest_event_index_of_task(events: &Vec<TimeEvent>, tid: u64) -> (r: Option<usize>)
    ensures
        match r {
            Option::Some(i) => i < events@.len() && Option::Some(events@[i as int])
                == last_event_of(events@, tid),
            Option::None => last_event_of(events@, tid) is None,
        },
{
    let mut best: Option<usize> = Option::None;
    let mut i: usize = 0;
    while i < events.len()
        invariant
            0 <= i <= events@.len(),
            match best {
                Option::Some(b) => b < i && Option::Some(events@[b as int]) == last_event_of(
                    events@.take(i as int),
                    tid,
                ),
                Option::None => last_event_of(events@.take(i as int), tid) is None,
            },
        decreases events@.len() - i,
    {
        proof {
            assert(events@.take(i + 1).drop_last() =~= events@.take(i as int));
            assert(events@.take(i + 1).last() == events@[i as int]);
        }
        if events[i].task_id == tid {
            best = match best {
                Option::None => Option::Some(i),
                Option::Some(b) => {
                    if events[i].ts > events[b].ts || (events[i].ts == events[b].ts && events[i].id
                        > events[b].id) {
                        Option::Some(i)
                    } else {
                        Option::Some(b)
                    }
                },
            };
        }
        i = i + 1;
    }
    proof {
        assert(events@.take(events@.len() as int) =~= events@);
    }
    best
}

} // verus!
