//! The aggregator: replay of exclusive focus seconds from the event log over
//! a window, derivation of inclusive seconds over the task forest, and the
//! overview query.
use vstd::prelude::*;

use crate::advisor::{close_kind, focus_kind};
use crate::domain::{
    AppError, EventKey, OverviewResponse, RestSuggestionRecord, SuggestionStatus, Tag, Task,
    TaskRecord, TaskTag, TimeEvent,
};
use crate::forest::{
    grounded, grounded_at, has_task, idx_of, lemma_chain_restrict, lemma_idx_unique, on_chain,
    parent_step, parents_exist, task_of, unique_ids, chain,
};
use crate::sorting::{
    event_keys, keys_of, keys_sorted, lemma_sort_keys_elems, lemma_sort_keys_sorted, overview_order,
    overview_order_exec, sort_event_keys, sort_keys, sort_name_vec, sort_names,
};
use crate::store::{find_running_task, live, live_task, Store};
use crate::window::{label_view, effective_label, known_label, resolve_window};

verus! {

/// The non-negative part of an integer.
pub open spec fn pos_part(x: int) -> int {
    if x > 0 {
        x
    } else {
        0
    }
}

/// Length of the interval `[start, end)` clipped to the reporting window:
/// clipped below at `window_start` (when bounded) and above at `window_end`;
/// empty intersections contribute nothing.
pub open spec fn clip_len(start: i64, end: i64, window_start: Option<i64>, window_end: i64) -> int {
    let cs: int = match window_start {
        Option::Some(w) => if start >= w {
            start as int
        } else {
            w as int
        },
        Option::None => start as int,
    };
    let ce: int = if end <= window_end {
        end as int
    } else {
        window_end as int
    };
    if ce > cs {
        ce - cs
    } else {
        0
    }
}

/// Adds one session's clipped span to a running total. Sessions straddling
/// the window are clipped on both sides; sessions outside it add nothing.
pub fn add_interval(
    total: i64,
    start: i64,
    end: i64,
    window_start: Option<i64>,
    window_end: i64,
) -> (r: i64)
    requires
        0 <= total,
        total + clip_len(start, end, window_start, window_end) <= i64::MAX,
    ensures
        r == total + clip_len(start, end, window_start, window_end),
{
    let cs = match window_start {
        Option::Some(w) => if start >= w {
            start
        } else {
            w
        },
        Option::None => start,
    };
    let ce = if end <= window_end {
        end
    } else {
        window_end
    };
    if ce > cs {
        total + (ce - cs)
    } else {
        total
    }
}

/// Replays one task's open/close events in canonical order against a window:
/// the still-open start (if any) and the exclusive seconds closed so far.
pub open spec fn excl_scan(ks: Seq<EventKey>, tid: u64, ws: Option<i64>, we: i64) -> (
    Option<i64>,
    int,
)
    decreases ks.len(),
{
    if ks.len() == 0 {
        (Option::None, 0)
    } else {
        let prev = excl_scan(ks.drop_last(), tid, ws, we);
        let e = ks.last();
        if e.task_id != tid {
            prev
        } else if focus_kind(e.event_type) {
            match prev.0 {
                Option::None => (Option::Some(e.ts), prev.1),
                Option::Some(_) => prev,
            }
        } else if close_kind(e.event_type) {
            match prev.0 {
                Option::Some(st) => (Option::None, prev.1 + clip_len(st, e.ts, ws, we)),
                Option::None => prev,
            }
        } else {
            prev
        }
    }
}

/// One task's exclusive seconds inside the window: the replay total, with any
/// interval still open at the end accounted up to `window_end`.
pub open spec fn exclusive_spec(events: Seq<TimeEvent>, tid: u64, ws: Option<i64>, we: i64) -> int {
    let scan = excl_scan(sort_keys(keys_of(events)), tid, ws, we);
    match scan.0 {
        Option::Some(st) => scan.1 + clip_len(st, we, ws, we),
        Option::None => scan.1,
    }
}

/// The effective lower clip of a window over a non-negative timeline.
pub open spec fn window_lo(ws: Option<i64>) -> int {
    match ws {
        Option::Some(w) => if w >= 0 {
            w as int
        } else {
            0
        },
        Option::None => 0,
    }
}

/// The timestamp of the last key, or zero for an empty sequence.
pub open spec fn last_ts(ks: Seq<EventKey>) -> int {
    if ks.len() == 0 {
        0
    } else {
        ks.last().ts as int
    }
}

/// Replay stays within the window: the accumulated exclusive seconds never
/// exceed the part of the window that has already passed, and an open
/// interval starts no later than the last event.
pub proof fn lemma_excl_scan_bounds(ks: Seq<EventKey>, tid: u64, ws: Option<i64>, we: i64)
    requires
        keys_sorted(ks),
        forall|i: int| 0 <= i < ks.len() ==> (#[trigger] ks[i]).ts >= 0,
    ensures
        ({
            let lo = window_lo(ws);
            let scan = excl_scan(ks, tid, ws, we);
            &&& 0 <= scan.1
            &&& match scan.0 {
                Option::Some(st) => st >= 0 && st <= last_ts(ks) && scan.1 <= pos_part(
                    (if st <= we {
                        st as int
                    } else {
                        we as int
                    }) - lo,
                ),
                Option::None => scan.1 <= pos_part(
                    (if last_ts(ks) <= we {
                        last_ts(ks)
                    } else {
                        we as int
                    }) - lo,
                ),
            }
        }),
    decreases ks.len(),
{
    if ks.len() > 0 {
        assert(keys_sorted(ks.drop_last()));
        assert(forall|i: int|
            0 <= i < ks.drop_last().len() ==> (#[trigger] ks.drop_last()[i]).ts >= 0);
        lemma_excl_scan_bounds(ks.drop_last(), tid, ws, we);
        assert(ks[ks.len() - 1].ts >= 0);
        if ks.len() >= 2 {
            assert(ks.drop_last().last() == ks[ks.len() - 2]);
            assert(crate::sorting::key_le(ks[ks.len() - 2], ks[ks.len() - 1]));
            assert(ks[ks.len() - 2].ts <= ks[ks.len() - 1].ts);
        }
    }
}

/// Exclusive-sum bound: inside a bounded window, a task's exclusive seconds
/// never exceed the window's length.
pub proof fn lemma_exclusive_in_window(events: Seq<TimeEvent>, tid: u64, ws: i64, we: i64)
    requires
        ws <= we,
        forall|i: int| 0 <= i < events.len() ==> (#[trigger] events[i]).ts >= 0,
    ensures
        0 <= exclusive_spec(events, tid, Option::Some(ws), we) <= we - ws,
{
    let ks = sort_keys(keys_of(events));
    lemma_sort_keys_sorted(keys_of(events));
    lemma_sort_keys_elems(keys_of(events));
    assert forall|i: int| 0 <= i < ks.len() implies (#[trigger] ks[i]).ts >= 0 by {
        assert(keys_of(events).contains(ks[i]));
        let k = choose|k: int| 0 <= k < keys_of(events).len() && keys_of(events)[k] == ks[i];
        assert(events[k].ts >= 0);
    }
    lemma_excl_scan_bounds(ks, tid, Option::Some(ws), we);
}

/// Replay over an unbounded past stays below the window end.
pub proof fn lemma_exclusive_nonneg(events: Seq<TimeEvent>, tid: u64, ws: Option<i64>, we: i64)
    requires
        forall|i: int| 0 <= i < events.len() ==> (#[trigger] events[i]).ts >= 0,
    ensures
        0 <= exclusive_spec(events, tid, ws, we) <= pos_part(we as int),
{
    let ks = sort_keys(keys_of(events));
    lemma_sort_keys_sorted(keys_of(events));
    lemma_sort_keys_elems(keys_of(events));
    assert forall|i: int| 0 <= i < ks.len() implies (#[trigger] ks[i]).ts >= 0 by {
        assert(keys_of(events).contains(ks[i]));
        let k = choose|k: int| 0 <= k < keys_of(events).len() && keys_of(events)[k] == ks[i];
        assert(events[k].ts >= 0);
    }
    lemma_excl_scan_bounds(ks, tid, ws, we);
}

/// Replays the whole log for one task and window. Tracks the open interval;
/// `start`/`resume` open it (redundant opens keep the earlier start),
/// `pause`/`stop` close and account it, and an interval still open at the end
/// is accounted up to `window_end`.
pub fn replay_exclusive_seconds(
    events: &Vec<TimeEvent>,
    window_start: Option<i64>,
    window_end: i64,
    task_id: u64,
) -> (r: i64)
    requires
        forall|i: int| 0 <= i < events@.len() ==> (#[trigger] events@[i]).ts >= 0,
    ensures
        r as int == exclusive_spec(events@, task_id, window_start, window_end),
        0 <= r as int <= pos_part(window_end as int),
{
    proof {
        lemma_exclusive_nonneg(events@, task_id, window_start, window_end);
    }
    let keys = event_keys(events);
    let sorted = sort_event_keys(&keys);
    let ghost ks = sorted@;
    proof {
        lemma_sort_keys_sorted(keys_of(events@));
        lemma_sort_keys_elems(keys_of(events@));
        assert forall|m: int| 0 <= m < ks.len() implies (#[trigger] ks[m]).ts >= 0 by {
            assert(keys_of(events@).contains(ks[m]));
            let k = choose|k: int|
                0 <= k < keys_of(events@).len() && keys_of(events@)[k] == ks[m];
            assert(events@[k].ts >= 0);
        }
    }
    let mut open_since: Option<i64> = Option::None;
    let mut total: i64 = 0;
    let mut i: usize = 0;
    while i < sorted.len()
        invariant
            sorted@ == ks,
            keys_sorted(ks),
            forall|m: int| 0 <= m < ks.len() ==> (#[trigger] ks[m]).ts >= 0,
            0 <= i <= ks.len(),
            (open_since, total as int) == excl_scan(
                ks.take(i as int),
                task_id,
                window_start,
                window_end,
            ),
            0 <= total,
        decreases ks.len() - i,
    {
        proof {
            assert(ks.take(i + 1).drop_last() =~= ks.take(i as int));
            assert(ks.take(i + 1).last() == ks[i as int]);
            assert(keys_sorted(ks.take(i + 1)));
            assert(forall|m: int|
                0 <= m < ks.take(i + 1).len() ==> (#[trigger] ks.take(i + 1)[m]).ts >= 0);
            lemma_excl_scan_bounds(ks.take(i + 1), task_id, window_start, window_end);
            assert(keys_sorted(ks.take(i as int)));
            assert(forall|m: int|
                0 <= m < ks.take(i as int).len() ==> (#[trigger] ks.take(i as int)[m]).ts >= 0);
            lemma_excl_scan_bounds(ks.take(i as int), task_id, window_start, window_end);
        }
        let e = sorted[i];
        if e.task_id == task_id {
            let focus = match e.event_type {
                crate::domain::EventType::Start => true,
                crate::domain::EventType::Resume => true,
                _ => false,
            };
            let close = match e.event_type {
                crate::domain::EventType::Pause => true,
                crate::domain::EventType::Stop => true,
                _ => false,
            };
            if focus {
                if open_since.is_none() {
                    open_since = Option::Some(e.ts);
                }
            } else if close {
                match open_since {
                    Option::Some(since) => {
                        total = add_interval(total, since, e.ts, window_start, window_end);
                        open_since = Option::None;
                    },
                    Option::None => {},
                }
            }
        }
        i = i + 1;
    }
    proof {
        assert(ks.take(ks.len() as int) =~= ks);
        lemma_excl_scan_bounds(ks, task_id, window_start, window_end);
    }
    match open_since {
        Option::Some(since) => add_interval(total, since, window_end, window_start, window_end),
        Option::None => total,
    }
}

/// Partial inclusive sum: the exclusive seconds of the first `n` tasks whose
/// parent chain passes `t`.
pub open spec fn incl_prefix(tasks: Seq<Task>, excl: Seq<i64>, t: u64, n: int) -> int
    decreases n,
{
    if n <= 0 {
        0
    } else {
        incl_prefix(tasks, excl, t, n - 1) + (if on_chain(tasks, tasks[n - 1].id, t) {
            excl[n - 1] as int
        } else {
            0
        })
    }
}

/// Inclusive seconds of `t`: the exclusive seconds of every task in its
/// subtree, itself included.
pub open spec fn inclusive_spec(tasks: Seq<Task>, excl: Seq<i64>, t: u64) -> int {
    incl_prefix(tasks, excl, t, tasks.len() as int)
}

/// Partial plain sum of the exclusive column.
pub open spec fn sum_prefix(excl: Seq<i64>, n: int) -> int
    decreases n,
{
    if n <= 0 {
        0
    } else {
        sum_prefix(excl, n - 1) + excl[n - 1] as int
    }
}

/// A column of values below `cap` sums to at most `n` times `cap`.
pub proof fn lemma_sum_prefix_bound(excl: Seq<i64>, n: int, cap: int)
    requires
        0 <= n <= excl.len(),
        cap >= 0,
        forall|i: int| 0 <= i < excl.len() ==> 0 <= #[trigger] excl[i] && excl[i] <= cap,
    ensures
        0 <= sum_prefix(excl, n) <= n * cap,
    decreases n,
{
    if n > 0 {
        lemma_sum_prefix_bound(excl, n - 1, cap);
        assert((n - 1) * cap + cap == n * cap) by (nonlinear_arith);
    }
}

/// Inclusive sums are bounded by the plain sum.
proof fn lemma_incl_le_sum(tasks: Seq<Task>, excl: Seq<i64>, t: u64, n: int)
    requires
        forall|i: int| 0 <= i < excl.len() ==> 0 <= #[trigger] excl[i],
        0 <= n <= excl.len(),
        excl.len() == tasks.len(),
    ensures
        0 <= incl_prefix(tasks, excl, t, n) <= sum_prefix(excl, n),
    decreases n,
{
    if n > 0 {
        lemma_incl_le_sum(tasks, excl, t, n - 1);
    }
}

/// Computes one task's inclusive seconds: the sum of the exclusive seconds of
/// every task whose parent chain passes it.
pub fn compute_inclusive(tasks: &Vec<Task>, exclusive: &Vec<i64>, task_id: u64) -> (r: i64)
    requires
        unique_ids(tasks@),
        parents_exist(tasks@),
        grounded(tasks@),
        exclusive@.len() == tasks@.len(),
        forall|i: int| 0 <= i < exclusive@.len() ==> 0 <= #[trigger] exclusive@[i],
        sum_prefix(exclusive@, exclusive@.len() as int) <= i64::MAX,
    ensures
        r as int == inclusive_spec(tasks@, exclusive@, task_id),
        0 <= r,
{
    let mut total: i64 = 0;
    let mut i: usize = 0;
    while i < tasks.len()
        invariant
            unique_ids(tasks@),
            parents_exist(tasks@),
            grounded(tasks@),
            exclusive@.len() == tasks@.len(),
            forall|m: int| 0 <= m < exclusive@.len() ==> 0 <= #[trigger] exclusive@[m],
            sum_prefix(exclusive@, exclusive@.len() as int) <= i64::MAX,
            0 <= i <= tasks@.len(),
            total as int == incl_prefix(tasks@, exclusive@, task_id, i as int),
            0 <= total,
        decreases tasks@.len() - i,
    {
        proof {
            lemma_incl_le_sum(tasks@, exclusive@, task_id, i + 1);
            lemma_sum_mono(exclusive@, i + 1, exclusive@.len() as int);
        }
        if crate::service::chain_reaches(tasks, tasks[i].id, task_id) {
            total = total + exclusive[i];
        }
        i = i + 1;
    }
    total
}

/// Partial sums only grow.
proof fn lemma_sum_mono(excl: Seq<i64>, n: int, m: int)
    requires
        0 <= n <= m <= excl.len(),
        forall|i: int| 0 <= i < excl.len() ==> 0 <= #[trigger] excl[i],
    ensures
        sum_prefix(excl, n) <= sum_prefix(excl, m),
    decreases m - n,
{
    if n < m {
        lemma_sum_mono(excl, n, m - 1);
    }
}

/// Computes the inclusive seconds of every listed task.
pub fn derive_inclusive_seconds(tasks: &Vec<Task>, exclusive: &Vec<i64>) -> (r: Vec<i64>)
    requires
        unique_ids(tasks@),
        parents_exist(tasks@),
        grounded(tasks@),
        exclusive@.len() == tasks@.len(),
        forall|i: int| 0 <= i < exclusive@.len() ==> 0 <= #[trigger] exclusive@[i],
        sum_prefix(exclusive@, exclusive@.len() as int) <= i64::MAX,
    ensures
        r@.len() == tasks@.len(),
        forall|i: int|
            0 <= i < tasks@.len() ==> (#[trigger] r@[i]) as int == inclusive_spec(
                tasks@,
                exclusive@,
                tasks@[i].id,
            ),
{
    let mut out: Vec<i64> = Vec::new();
    let mut i: usize = 0;
    while i < tasks.len()
        invariant
            unique_ids(tasks@),
            parents_exist(tasks@),
            grounded(tasks@),
            exclusive@.len() == tasks@.len(),
            forall|m: int| 0 <= m < exclusive@.len() ==> 0 <= #[trigger] exclusive@[m],
            sum_prefix(exclusive@, exclusive@.len() as int) <= i64::MAX,
            0 <= i <= tasks@.len(),
            out@.len() == i,
            forall|m: int|
                0 <= m < i ==> (#[trigger] out@[m]) as int == inclusive_spec(
                    tasks@,
                    exclusive@,
                    tasks@[m].id,
                ),
        decreases tasks@.len() - i,
    {
        let v = compute_inclusive(tasks, exclusive, tasks[i].id);
        out.push(v);
        i = i + 1;
    }
    out
}

/// Keep a task row iff it is not archived.
pub open spec fn live_pred() -> spec_fn(Task) -> bool {
    |t: Task| t.archived_at is None
}

/// The non-archived tasks, in table order.
pub open spec fn live_view(tasks: Seq<Task>) -> Seq<Task> {
    tasks.filter(live_pred())
}

/// Collects the non-archived tasks.
fn filtered_live(tasks: &Vec<Task>) -> (r: Vec<Task>)
    ensures
        r@ == live_view(tasks@),
{
    let ghost tasks0 = tasks@;
    let mut out: Vec<Task> = Vec::new();
    let mut i: usize = 0;
    proof {
        reveal(Seq::filter);
        assert(tasks0.take(0) =~= Seq::<Task>::empty());
    }
    while i < tasks.len()
        invariant
            tasks0 == tasks@,
            0 <= i <= tasks0.len(),
            out@ == tasks0.take(i as int).filter(live_pred()),
        decreases tasks0.len() - i,
    {
        proof {
            reveal(Seq::filter);
            assert(tasks0.take(i + 1).drop_last() =~= tasks0.take(i as int));
            assert(tasks0.take(i + 1).last() == tasks0[i as int]);
        }
        if tasks[i].archived_at.is_none() {
            out.push(crate::service::clone_task_pub(&tasks[i]));
        }
        i = i + 1;
    }
    proof {
        assert(tasks0.take(tasks0.len() as int) =~= tasks0);
    }
    out
}

/// The live slice of a well-formed task table is itself a well-formed forest.
proof fn lemma_live_view_graph(tasks: Seq<Task>)
    requires
        unique_ids(tasks),
        parents_exist(tasks),
        grounded(tasks),
        forall|i: int|
            0 <= i < tasks.len() && live(#[trigger] tasks[i]) ==> match tasks[i].parent_id {
                Option::Some(p) => live_task(tasks, p),
                Option::None => true,
            },
    ensures
        unique_ids(live_view(tasks)),
        parents_exist(live_view(tasks)),
        grounded(live_view(tasks)),
        live_view(tasks).len() <= tasks.len(),
{
    let lv = live_view(tasks);
    crate::sorting::lemma_filter_ordered(tasks, live_pred());
    tasks.lemma_filter_len(live_pred());
    assert forall|a: int, b: int| 0 <= a < b < lv.len() implies lv[a].id != lv[b].id by {
        let (i0, j0) = choose|i0: int, j0: int|
            0 <= i0 < j0 < tasks.len() && tasks[i0] == lv[a] && tasks[j0] == #[trigger] lv[b];
    }
    assert forall|id: u64|
        has_task(tasks, id) && live(task_of(tasks, id)) implies has_task(lv, id) by {
        let w = idx_of(tasks, id);
        assert(live_pred()(tasks[w]));
        tasks.lemma_filter_contains(live_pred(), w);
        let v = choose|v: int| 0 <= v < lv.len() && lv[v] == tasks[w];
        assert(lv[v].id == id);
    }
    assert forall|a: int|
        0 <= a < lv.len() implies match (#[trigger] lv[a]).parent_id {
        Option::Some(p) => has_task(lv, p),
        Option::None => true,
    } by {
        let i0 = choose|i0: int| 0 <= i0 < tasks.len() && tasks[i0] == lv[a];
        tasks.lemma_filter_pred(live_pred(), a);
        match lv[a].parent_id {
            Option::Some(p) => {
                assert(live(tasks[i0]));
                assert(live_task(tasks, p));
            },
            Option::None => {},
        }
    }
    assert forall|id: u64| #[trigger] has_task(lv, id) implies has_task(tasks, id) && task_of(
        lv,
        id,
    ) == task_of(tasks, id) by {
        let v = idx_of(lv, id);
        assert(0 <= v < lv.len() && lv[v].id == id);
        let i0 = choose|i0: int| 0 <= i0 < tasks.len() && tasks[i0] == lv[v];
        lemma_idx_unique(tasks, id, i0);
        lemma_idx_unique(lv, id, v);
    }
    assert forall|id: u64| #[trigger] grounded_at(lv, id) by {
        assert(grounded_at(tasks, id));
        let n = choose|n: nat| chain(tasks, id, n) is None;
        lemma_chain_restrict(tasks, lv, id, n);
    }
}

/// The exclusive column of the live tasks, for one window.
pub open spec fn live_exclusives(
    events: Seq<TimeEvent>,
    lv: Seq<Task>,
    ws: Option<i64>,
    we: i64,
) -> Seq<i64> {
    Seq::new(lv.len(), |i: int| exclusive_spec(events, lv[i].id, ws, we) as i64)
}

/// Index of the pending suggestion, if one exists.
fn latest_pending_index(suggestions: &Vec<RestSuggestionRecord>) -> (r: Option<usize>)
    ensures
        match r {
            Option::Some(i) => i < suggestions@.len() && suggestions@[i as int].status
                == SuggestionStatus::Pending,
            Option::None => forall|j: int|
                0 <= j < suggestions@.len() ==> (#[trigger] suggestions@[j]).status
                    != SuggestionStatus::Pending,
        },
{
    let mut i: usize = 0;
    while i < suggestions.len()
        invariant
            0 <= i <= suggestions@.len(),
            forall|j: int|
                0 <= j < i ==> (#[trigger] suggestions@[j]).status != SuggestionStatus::Pending,
        decreases suggestions@.len() - i,
    {
        let pending = match suggestions[i].status {
            SuggestionStatus::Pending => true,
            _ => false,
        };
        if pending {
            return Option::Some(i);
        }
        i = i + 1;
    }
    Option::None
}

/// Keep a link iff it belongs to one task.
pub open spec fn link_of(tid: u64) -> spec_fn(TaskTag) -> bool {
    |l: TaskTag| l.task_id == tid
}

/// The display name of the tag a link points to.
pub open spec fn link_name(tags: Seq<Tag>) -> spec_fn(int, TaskTag) -> String {
    |i: int, l: TaskTag|
        tags[choose|k: int| 0 <= k < tags.len() && (#[trigger] tags[k]).id == l.tag_id].name
}

/// The tag names of one task, in link-table order.
pub open spec fn link_names(tags: Seq<Tag>, links: Seq<TaskTag>, tid: u64) -> Seq<String> {
    links.filter(link_of(tid)).map(link_name(tags))
}

/// Index of the tag with the given id.
fn find_tag_by_id(tags: &Vec<Tag>, tag_id: u64) -> (r: Option<usize>)
    ensures
        match r {
            Option::Some(k) => k < tags@.len() && tags@[k as int].id == tag_id,
            Option::None => forall|m: int| 0 <= m < tags@.len() ==> (#[trigger] tags@[m]).id != tag_id,
        },
{
    let mut k: usize = 0;
    while k < tags.len()
        invariant
            0 <= k <= tags@.len(),
            forall|m: int| 0 <= m < k ==> (#[trigger] tags@[m]).id != tag_id,
        decreases tags@.len() - k,
    {
        if tags[k].id == tag_id {
            return Option::Some(k);
        }
        k = k + 1;
    }
    Option::None
}

/// Collects and sorts one task's tag names.
fn tags_for_task(tags: &Vec<Tag>, links: &Vec<TaskTag>, tid: u64) -> (r: Vec<String>)
    requires
        forall|i: int, j: int| 0 <= i < j < tags@.len() ==> tags@[i].id != tags@[j].id,
        forall|i: int|
            0 <= i < links@.len() ==> crate::store::has_tag(tags@, (#[trigger] links@[i]).tag_id),
    ensures
        r@ == sort_names(link_names(tags@, links@, tid)),
{
    let ghost links0 = links@;
    let mut names: Vec<String> = Vec::new();
    let mut i: usize = 0;
    proof {
        reveal(Seq::filter);
        assert(links0.take(0) =~= Seq::<TaskTag>::empty());
        assert(links0.take(0).filter(link_of(tid)).map(link_name(tags@)) =~= Seq::<
            String,
        >::empty());
    }
    while i < links.len()
        invariant
            forall|a: int, b: int| 0 <= a < b < tags@.len() ==> tags@[a].id != tags@[b].id,
            forall|a: int|
                0 <= a < links@.len() ==> crate::store::has_tag(
                    tags@,
                    (#[trigger] links@[a]).tag_id,
                ),
            links0 == links@,
            0 <= i <= links0.len(),
            names@ == links0.take(i as int).filter(link_of(tid)).map(link_name(tags@)),
        decreases links0.len() - i,
    {
        proof {
            reveal(Seq::filter);
            assert(links0.take(i + 1).drop_last() =~= links0.take(i as int));
            assert(links0.take(i + 1).last() == links0[i as int]);
        }
        if links[i].task_id == tid {
            proof {
                assert(crate::store::has_tag(tags@, links0[i as int].tag_id));
            }
            match find_tag_by_id(tags, links[i].tag_id) {
                Option::Some(k) => {
                    proof {
                        let w = choose|w: int|
                            0 <= w < tags@.len() && (#[trigger] tags@[w]).id
                                == links0[i as int].tag_id;
                        if w != k as int {
                            if w < k as int {
                                assert(tags@[w].id != tags@[k as int].id);
                            } else {
                                assert(tags@[k as int].id != tags@[w].id);
                            }
                        }
                        let fl = links0.take(i + 1).filter(link_of(tid));
                        assert(fl == links0.take(i as int).filter(link_of(tid)).push(
                            links0[i as int],
                        ));
                        assert(fl.map(link_name(tags@)) =~= links0.take(i as int).filter(
                            link_of(tid),
                        ).map(link_name(tags@)).push(
                            link_name(tags@)(fl.len() - 1, links0[i as int]),
                        ));
                    }
                    names.push(tags[k].name.clone());
                },
                Option::None => {
                    proof {
                        let m = choose|m: int|
                            0 <= m < tags@.len() && (#[trigger] tags@[m]).id
                                == links0[i as int].tag_id;
                        assert(tags@[m].id != links0[i as int].tag_id);
                    }
                },
            }
        } else {
            proof {
                assert(links0.take(i + 1).filter(link_of(tid)) == links0.take(i as int).filter(
                    link_of(tid),
                ));
            }
        }
        i = i + 1;
    }
    proof {
        assert(links0.take(links0.len() as int) =~= links0);
    }
    sort_name_vec(names)
}

/// One overview record corresponds to one task row: same identity and state,
/// the sorted tag names, and the replayed exclusive and derived inclusive
/// seconds for the window.
pub open spec fn record_matches(s: Store, rec: TaskRecord, idx: int, ws: Option<i64>, now: i64) -> bool {
    let t = s.tasks@[idx];
    let lv = live_view(s.tasks@);
    &&& rec.id == t.id
    &&& rec.parent_id == t.parent_id
    &&& rec.title@ == t.title@
    &&& rec.status == t.status
    &&& rec.created_at == t.created_at
    &&& rec.tags@ == sort_names(link_names(s.tags@, s.task_tags@, t.id))
    &&& rec.exclusive_seconds as int == exclusive_spec(s.events@, t.id, ws, now)
    &&& rec.inclusive_seconds as int == inclusive_spec(
        lv,
        live_exclusives(s.events@, lv, ws, now),
        t.id,
    )
}

/// The whole overview body for a resolved window.
pub open spec fn overview_ok(s: Store, resp: OverviewResponse, ws: Option<i64>, now: i64) -> bool {
    &&& resp.generated_at == now
    &&& (match resp.active_task_id {
        Option::Some(id) => live_task(s.tasks@, id) && task_of(s.tasks@, id).status
            == crate::domain::Status::Running,
        Option::None => forall|j: int|
            0 <= j < s.tasks@.len() ==> !(live(#[trigger] s.tasks@[j]) && s.tasks@[j].status
                == crate::domain::Status::Running),
    })
    &&& (match resp.rest_suggestion {
        Option::Some(rec) => exists|i: int|
            0 <= i < s.suggestions@.len() && (#[trigger] s.suggestions@[i]).status
                == SuggestionStatus::Pending && rec.id == s.suggestions@[i].id && rec.trigger_type
                == s.suggestions@[i].trigger_type && rec.task_id == s.suggestions@[i].task_id
                && rec.focus_seconds == s.suggestions@[i].focus_seconds && rec.switch_count_30m
                == s.suggestions@[i].switch_count_30m && rec.deviation_ratio
                == s.suggestions@[i].deviation_ratio && rec.suggested_minutes
                == s.suggestions@[i].suggested_minutes && rec.reasons@
                == s.suggestions@[i].reasons@ && rec.status == s.suggestions@[i].status
                && rec.created_at == s.suggestions@[i].created_at && rec.responded_at
                == s.suggestions@[i].responded_at,
        Option::None => forall|j: int|
            0 <= j < s.suggestions@.len() ==> (#[trigger] s.suggestions@[j]).status
                != SuggestionStatus::Pending,
    })
    &&& resp.tasks@.len() == overview_order(s.tasks@).len()
    &&& (forall|k: int|
        0 <= k < resp.tasks@.len() ==> record_matches(
            s,
            #[trigger] resp.tasks@[k],
            overview_order(s.tasks@)[k] as int,
            ws,
            now,
        ))
}

/// Builds the overview: resolves the window, lists the non-archived tasks by
/// creation time with their sorted tags and their exclusive and inclusive
/// seconds, and reports the running task and the pending suggestion.
pub fn get_overview(s: &Store, range: Option<String>, now: i64) -> (r: Result<
    OverviewResponse,
    AppError,
>)
    requires
        s.inv(),
        now >= 0,
        s.tasks@.len() * (now as int) <= i64::MAX,
    ensures
        ({
            let l = effective_label(label_view(range));
            match r {
                Ok(resp) => known_label(l) && resp.range@ == l && exists|ws: Option<i64>|
                    (#[trigger] overview_ok(*s, resp, ws, now)) && ((l == "all"@ ==> ws is None) && (
                    l == "day"@ ==> ws == Option::Some((now - crate::window::DAY_SECONDS) as i64))
                        && (l == "week"@ ==> ws == Option::Some(
                        (now - crate::window::WEEK_SECONDS) as i64,
                    )) && (l == "today"@ ==> ws is Some)),
                Err(e) => e == AppError::InvalidInput && !known_label(l),
            }
        }),
{
    let resolved = match resolve_window(range, now) {
        Ok(p) => p,
        Err(e) => {
            return Err(e);
        },
    };
    let window_start = resolved.0;
    let resolved_range = resolved.1;

    let live_tasks = filtered_live(&s.tasks);
    proof {
        lemma_live_view_graph(s.tasks@);
    }
    let ghost lv = live_tasks@;

    let mut exclusive: Vec<i64> = Vec::new();
    let mut i: usize = 0;
    while i < live_tasks.len()
        invariant
            s.inv(),
            now >= 0,
            live_tasks@ == lv,
            lv == live_view(s.tasks@),
            0 <= i <= lv.len(),
            exclusive@.len() == i,
            forall|m: int|
                0 <= m < i ==> (#[trigger] exclusive@[m]) as int == exclusive_spec(
                    s.events@,
                    lv[m].id,
                    window_start,
                    now,
                ) && 0 <= exclusive@[m] && exclusive@[m] as int <= pos_part(now as int),
        decreases lv.len() - i,
    {
        let v = replay_exclusive_seconds(&s.events, window_start, now, live_tasks[i].id);
        exclusive.push(v);
        i = i + 1;
    }
    proof {
        assert(exclusive@ =~= live_exclusives(s.events@, lv, window_start, now));
        lemma_live_view_graph(s.tasks@);
        lemma_sum_prefix_bound(exclusive@, exclusive@.len() as int, pos_part(now as int));
        assert(pos_part(now as int) == now as int);
        assert(lv.len() * pos_part(now as int) <= s.tasks@.len() * (now as int)) by (nonlinear_arith)
            requires
                lv.len() <= s.tasks@.len(),
                now >= 0,
                pos_part(now as int) == now as int,
        ;
    }
    let inclusive = derive_inclusive_seconds(&live_tasks, &exclusive);

    let order = overview_order_exec(&s.tasks);
    let mut records: Vec<TaskRecord> = Vec::new();
    let mut k: usize = 0;
    while k < order.len()
        invariant
            s.inv(),
            now >= 0,
            order@ == overview_order(s.tasks@),
            forall|m: int| 0 <= m < order@.len() ==> (#[trigger] order@[m]) < s.tasks@.len(),
            lv == live_view(s.tasks@),
            live_tasks@ == lv,
            exclusive@ == live_exclusives(s.events@, lv, window_start, now),
            exclusive@.len() == lv.len(),
            forall|m: int|
                0 <= m < exclusive@.len() ==> 0 <= #[trigger] exclusive@[m],
            sum_prefix(exclusive@, exclusive@.len() as int) <= i64::MAX,
            unique_ids(lv),
            parents_exist(lv),
            grounded(lv),
            inclusive@.len() == lv.len(),
            forall|m: int|
                0 <= m < lv.len() ==> (#[trigger] inclusive@[m]) as int == inclusive_spec(
                    lv,
                    live_exclusives(s.events@, lv, window_start, now),
                    lv[m].id,
                ),
            0 <= k <= order@.len(),
            records@.len() == k,
            forall|m: int|
                0 <= m < k ==> record_matches(
                    *s,
                    #[trigger] records@[m],
                    order@[m] as int,
                    window_start,
                    now,
                ),
        decreases order@.len() - k,
    {
        let idx = order[k];
        let t = &s.tasks[idx];
        let tags = tags_for_task(&s.tags, &s.task_tags, t.id);
        let excl_here = replay_exclusive_seconds(&s.events, window_start, now, t.id);
        let incl_here = compute_inclusive(&live_tasks, &exclusive, t.id);
        let record = TaskRecord {
            id: t.id,
            parent_id: t.parent_id,
            title: t.title.clone(),
            status: t.status,
            created_at: t.created_at,
            tags,
            inclusive_seconds: incl_here,
            exclusive_seconds: excl_here,
        };
        records.push(record);
        k = k + 1;
    }

    let active_task_id = find_running_task(&s.tasks);
    let rest_suggestion = match latest_pending_index(&s.suggestions) {
        Option::Some(pi) => Option::Some(crate::service::clone_suggestion_pub(&s.suggestions[pi])),
        Option::None => Option::None,
    };
    let resp = OverviewResponse {
        range: resolved_range,
        generated_at: now,
        active_task_id,
        rest_suggestion,
        tasks: records,
    };
    proof {
        assert(overview_ok(*s, resp, window_start, now));
    }
    Ok(resp)
}

/// Finite sum of `f` over `[0, n)`.
pub open spec fn sum_f(n: int, f: spec_fn(int) -> int) -> int
    decreases n,
{
    if n <= 0 {
        0
    } else {
        sum_f(n - 1, f) + f(n - 1)
    }
}

proof fn lemma_sum_zero(n: int, f: spec_fn(int) -> int)
    requires
        forall|i: int| 0 <= i < n ==> #[trigger] f(i) == 0,
    ensures
        sum_f(n, f) == 0,
    decreases n,
{
    if n > 0 {
        lemma_sum_zero(n - 1, f);
    }
}

proof fn lemma_sum_congruent(n: int, f: spec_fn(int) -> int, g: spec_fn(int) -> int)
    requires
        forall|i: int| 0 <= i < n ==> #[trigger] f(i) == g(i),
    ensures
        sum_f(n, f) == sum_f(n, g),
    decreases n,
{
    if n > 0 {
        lemma_sum_congruent(n - 1, f, g);
    }
}

proof fn lemma_sum_split(n: int, f: spec_fn(int) -> int, g: spec_fn(int) -> int, h: spec_fn(
    int,
) -> int)
    requires
        forall|i: int| 0 <= i < n ==> #[trigger] h(i) == f(i) + g(i),
    ensures
        sum_f(n, h) == sum_f(n, f) + sum_f(n, g),
    decreases n,
{
    if n > 0 {
        lemma_sum_split(n - 1, f, g, h);
    }
}

proof fn lemma_sum_single(n: int, f: spec_fn(int) -> int, j0: int, v: int)
    requires
        0 <= j0 < n,
        f(j0) == v,
        forall|j: int| 0 <= j < n && j != j0 ==> #[trigger] f(j) == 0,
    ensures
        sum_f(n, f) == v,
    decreases n,
{
    if j0 == n - 1 {
        lemma_sum_zero(n - 1, f);
    } else {
        lemma_sum_single(n - 1, f, j0, v);
    }
}

/// The weight one row contributes to the inclusive sum of `t`.
pub open spec fn incl_f(tasks: Seq<Task>, excl: Seq<i64>, t: u64) -> spec_fn(int) -> int {
    |i: int|
        if on_chain(tasks, tasks[i].id, t) {
            excl[i] as int
        } else {
            0
        }
}

proof fn lemma_incl_prefix_as_sum(tasks: Seq<Task>, excl: Seq<i64>, t: u64, n: int)
    ensures
        incl_prefix(tasks, excl, t, n) == sum_f(n, incl_f(tasks, excl, t)),
    decreases n,
{
    if n > 0 {
        lemma_incl_prefix_as_sum(tasks, excl, t, n - 1);
    }
}

/// The inclusive sums of the children of `t`, over the first `n` rows.
pub open spec fn children_sum(tasks: Seq<Task>, excl: Seq<i64>, t: u64, n: int) -> int
    decreases n,
{
    if n <= 0 {
        0
    } else {
        children_sum(tasks, excl, t, n - 1) + (if tasks[n - 1].parent_id == Option::Some(t) {
            inclusive_spec(tasks, excl, tasks[n - 1].id)
        } else {
            0
        })
    }
}

/// The inclusive matrix: row `j` scores the children of `t`, column `i` the
/// contributing rows.
pub open spec fn incl_cell(tasks: Seq<Task>, excl: Seq<i64>, t: u64) -> spec_fn(int, int) -> int {
    |j: int, i: int|
        if tasks[j].parent_id == Option::Some(t) && on_chain(tasks, tasks[i].id, tasks[j].id) {
            excl[i] as int
        } else {
            0
        }
}

pub open spec fn row_fn(g: spec_fn(int, int) -> int, j: int) -> spec_fn(int) -> int {
    |i: int| g(j, i)
}

pub open spec fn col_fn(g: spec_fn(int, int) -> int, ni: int) -> spec_fn(int) -> int {
    |j: int| sum_f(ni, row_fn(g, j))
}

pub open spec fn rowt_fn(g: spec_fn(int, int) -> int, i: int) -> spec_fn(int) -> int {
    |j: int| g(j, i)
}

pub open spec fn colt_fn(g: spec_fn(int, int) -> int, nj: int) -> spec_fn(int) -> int {
    |i: int| sum_f(nj, rowt_fn(g, i))
}

proof fn lemma_sum_exchange(g: spec_fn(int, int) -> int, nj: int, ni: int)
    requires
        nj >= 0,
        ni >= 0,
    ensures
        sum_f(nj, col_fn(g, ni)) == sum_f(ni, colt_fn(g, nj)),
    decreases nj,
{
    if nj == 0 {
        assert forall|i: int| 0 <= i < ni implies #[trigger] colt_fn(g, 0)(i) == 0 by {}
        lemma_sum_zero(ni, colt_fn(g, 0));
    } else {
        lemma_sum_exchange(g, nj - 1, ni);
        assert(sum_f(nj, col_fn(g, ni)) == sum_f(nj - 1, col_fn(g, ni)) + sum_f(
            ni,
            row_fn(g, nj - 1),
        ));
        assert forall|i: int| 0 <= i < ni implies #[trigger] colt_fn(g, nj)(i) == colt_fn(
            g,
            nj - 1,
        )(i) + row_fn(g, nj - 1)(i) by {}
        lemma_sum_split(ni, colt_fn(g, nj - 1), row_fn(g, nj - 1), colt_fn(g, nj));
    }
}

/// A task strictly below `t` sits below exactly one child of `t`.
proof fn lemma_unique_child(tasks: Seq<Task>, t: u64, x: u64, j1: int, j2: int)
    requires
        unique_ids(tasks),
        parents_exist(tasks),
        grounded(tasks),
        0 <= j1 < tasks.len(),
        0 <= j2 < tasks.len(),
        tasks[j1].parent_id == Option::Some(t),
        tasks[j2].parent_id == Option::Some(t),
        on_chain(tasks, x, tasks[j1].id),
        on_chain(tasks, x, tasks[j2].id),
    ensures
        j1 == j2,
{
    if j1 != j2 {
        let id1 = tasks[j1].id;
        let id2 = tasks[j2].id;
        assert(id1 != id2) by {
            if j1 < j2 {
                assert(tasks[j1].id != tasks[j2].id);
            } else {
                assert(tasks[j2].id != tasks[j1].id);
            }
        }
        let n1 = choose|n: nat| #[trigger] chain(tasks, x, n) == Option::<u64>::Some(id1);
        let n2 = choose|n: nat| #[trigger] chain(tasks, x, n) == Option::<u64>::Some(id2);
        assert(n1 != n2);
        lemma_idx_unique(tasks, id1, j1);
        lemma_idx_unique(tasks, id2, j2);
        if n1 < n2 {
            crate::forest::lemma_chain_add(tasks, x, n1, (n2 - n1) as nat);
            assert(chain(tasks, id1, (n2 - n1) as nat) == Option::<u64>::Some(id2));
            crate::forest::lemma_chain_add(tasks, id1, (n2 - n1) as nat, 1);
            assert(chain(tasks, id1, (n2 - n1) as nat + 1) == parent_step(tasks, id2));
            assert(parent_step(tasks, id2) == Option::<u64>::Some(t));
            assert(chain(tasks, id1, 0) == Option::<u64>::Some(id1));
            assert(chain(tasks, id1, 1) == parent_step(tasks, id1));
            assert(chain(tasks, id1, 1) == Option::<u64>::Some(t));
            crate::forest::lemma_chain_add(tasks, id1, 1, (n2 - n1) as nat);
            assert(chain(tasks, t, (n2 - n1) as nat) == Option::<u64>::Some(t));
            assert(grounded_at(tasks, t));
            crate::forest::lemma_grounded_no_cycle(tasks, t, (n2 - n1) as nat);
        } else {
            crate::forest::lemma_chain_add(tasks, x, n2, (n1 - n2) as nat);
            assert(chain(tasks, id2, (n1 - n2) as nat) == Option::<u64>::Some(id1));
            crate::forest::lemma_chain_add(tasks, id2, (n1 - n2) as nat, 1);
            assert(chain(tasks, id2, (n1 - n2) as nat + 1) == parent_step(tasks, id1));
            assert(parent_step(tasks, id1) == Option::<u64>::Some(t));
            assert(chain(tasks, id2, 0) == Option::<u64>::Some(id2));
            assert(chain(tasks, id2, 1) == parent_step(tasks, id2));
            assert(chain(tasks, id2, 1) == Option::<u64>::Some(t));
            crate::forest::lemma_chain_add(tasks, id2, 1, (n1 - n2) as nat);
            assert(chain(tasks, t, (n1 - n2) as nat) == Option::<u64>::Some(t));
            assert(grounded_at(tasks, t));
            crate::forest::lemma_grounded_no_cycle(tasks, t, (n1 - n2) as nat);
        }
    }
}

/// Inclusive decomposition: a task's inclusive seconds are its own exclusive
/// seconds plus the inclusive seconds of its children.
pub proof fn lemma_inclusive_decomposition(tasks: Seq<Task>, excl: Seq<i64>, t: u64)
    requires
        unique_ids(tasks),
        parents_exist(tasks),
        grounded(tasks),
        excl.len() == tasks.len(),
        has_task(tasks, t),
    ensures
        inclusive_spec(tasks, excl, t) == excl[idx_of(tasks, t)] + children_sum(
            tasks,
            excl,
            t,
            tasks.len() as int,
        ),
{
    let nn = tasks.len() as int;
    let it = idx_of(tasks, t);
    let g = incl_cell(tasks, excl, t);
    let own = incl_f(tasks, excl, t);

    // per-row: the weight splits into "is t itself" plus "sits below exactly
    // one child of t"
    let delta = |i: int| if i == it { excl[i] as int } else { 0 };
    assert forall|i: int| 0 <= i < nn implies #[trigger] own(i) == delta(i) + colt_fn(g, nn)(
        i,
    ) by {
        let x = tasks[i].id;
        if i == it {
            // t reaches itself in zero steps and sits below no child of t
            assert(chain(tasks, x, 0) == Option::<u64>::Some(t));
            assert(on_chain(tasks, x, t));
            assert forall|j: int| 0 <= j < nn implies #[trigger] rowt_fn(g, i)(j) == 0 by {
                if tasks[j].parent_id == Option::Some(t) && on_chain(tasks, x, tasks[j].id) {
                    let n = choose|n: nat|
                        #[trigger] chain(tasks, x, n) == Option::<u64>::Some(tasks[j].id);
                    lemma_idx_unique(tasks, tasks[j].id, j);
                    assert(chain(tasks, tasks[j].id, 0) == Option::<u64>::Some(tasks[j].id));
                    assert(chain(tasks, tasks[j].id, 1) == parent_step(tasks, tasks[j].id));
                    crate::forest::lemma_chain_add(tasks, x, n, 1);
                    assert(chain(tasks, t, n + 1) == Option::<u64>::Some(t));
                    assert(grounded_at(tasks, t));
                    crate::forest::lemma_grounded_no_cycle(tasks, t, n + 1);
                }
            }
            lemma_sum_zero(nn, rowt_fn(g, i));
        } else {
            assert(x != t) by {
                lemma_idx_unique(tasks, t, it);
                if x == t {
                    lemma_idx_unique(tasks, x, i);
                }
            }
            if on_chain(tasks, x, t) {
                // the chain from x to t passes a unique child of t
                let n = choose|n: nat| #[trigger] chain(tasks, x, n) == Option::<u64>::Some(t);
                assert(n >= 1) by {
                    if n == 0 {
                        assert(chain(tasks, x, 0) == Option::<u64>::Some(x));
                    }
                }
                let y = chain(tasks, x, (n - 1) as nat)->Some_0;
                assert(chain(tasks, x, (n - 1) as nat) is Some);
                assert(chain(tasks, x, n) == parent_step(tasks, y));
                assert(has_task(tasks, y)) by {
                    if n - 1 == 0 {
                        assert(chain(tasks, x, 0) == Option::<u64>::Some(x));
                        assert(parent_step(tasks, y) is Some ==> has_task(tasks, y));
                    } else {
                        crate::forest::lemma_chain_hits_tasks(tasks, x, (n - 1) as nat);
                    }
                }
                let j0 = idx_of(tasks, y);
                assert(tasks[j0].id == y && 0 <= j0 < nn);
                assert(tasks[j0].parent_id == Option::Some(t));
                assert(on_chain(tasks, x, y));
                assert(rowt_fn(g, i)(j0) == excl[i] as int);
                assert forall|j: int| 0 <= j < nn && j != j0 implies #[trigger] rowt_fn(g, i)(j)
                    == 0 by {
                    if tasks[j].parent_id == Option::Some(t) && on_chain(tasks, x, tasks[j].id) {
                        lemma_unique_child(tasks, t, x, j, j0);
                    }
                }
                lemma_sum_single(nn, rowt_fn(g, i), j0, excl[i] as int);
            } else {
                // not below t at all: no child row matches either
                assert forall|j: int| 0 <= j < nn implies #[trigger] rowt_fn(g, i)(j) == 0 by {
                    if tasks[j].parent_id == Option::Some(t) && on_chain(tasks, x, tasks[j].id) {
                        let n = choose|n: nat|
                            #[trigger] chain(tasks, x, n) == Option::<u64>::Some(tasks[j].id);
                        lemma_idx_unique(tasks, tasks[j].id, j);
                        crate::forest::lemma_chain_add(tasks, x, n, 1);
                        assert(chain(tasks, tasks[j].id, 0) == Option::<u64>::Some(tasks[j].id));
                        assert(chain(tasks, tasks[j].id, 1) == parent_step(tasks, tasks[j].id));
                        assert(chain(tasks, x, n + 1) == Option::<u64>::Some(t));
                        assert(on_chain(tasks, x, t));
                    }
                }
                lemma_sum_zero(nn, rowt_fn(g, i));
            }
        }
    }
    lemma_sum_split(nn, delta, colt_fn(g, nn), own);
    lemma_sum_single(nn, delta, it, excl[it] as int);
    lemma_incl_prefix_as_sum(tasks, excl, t, nn);
    lemma_sum_exchange(g, nn, nn);

    // columns of the matrix are the children's inclusive sums
    assert forall|j: int| 0 <= j < nn implies #[trigger] col_fn(g, nn)(j) == (if tasks[j].parent_id
        == Option::Some(t) {
        inclusive_spec(tasks, excl, tasks[j].id)
    } else {
        0
    }) by {
        if tasks[j].parent_id == Option::Some(t) {
            assert forall|i: int| 0 <= i < nn implies #[trigger] row_fn(g, j)(i) == incl_f(
                tasks,
                excl,
                tasks[j].id,
            )(i) by {}
            lemma_sum_congruent(nn, row_fn(g, j), incl_f(tasks, excl, tasks[j].id));
            lemma_incl_prefix_as_sum(tasks, excl, tasks[j].id, nn);
        } else {
            assert forall|i: int| 0 <= i < nn implies #[trigger] row_fn(g, j)(i) == 0 by {}
            lemma_sum_zero(nn, row_fn(g, j));
        }
    }
    lemma_children_sum_as_sum(tasks, excl, t, nn, g);
}

proof fn lemma_children_sum_as_sum(
    tasks: Seq<Task>,
    excl: Seq<i64>,
    t: u64,
    n: int,
    g: spec_fn(int, int) -> int,
)
    requires
        g == incl_cell(tasks, excl, t),
        n <= tasks.len(),
        forall|j: int|
            0 <= j < n ==> #[trigger] col_fn(g, tasks.len() as int)(j) == (if tasks[j].parent_id
                == Option::Some(t) {
                inclusive_spec(tasks, excl, tasks[j].id)
            } else {
                0
            }),
    ensures
        children_sum(tasks, excl, t, n) == sum_f(n, col_fn(g, tasks.len() as int)),
    decreases n,
{
    if n > 0 {
        lemma_children_sum_as_sum(tasks, excl, t, n - 1, g);
    }
}

} // verus!
