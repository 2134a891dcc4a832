//! The rest advisor: focus sessions, switch counts, deviation ratio, the
//! scoring rules, and the single-pending suggestion write.
use vstd::prelude::*;

use crate::domain::{
    AppError, EventKey, EventType, Ratio, RestSuggestionRecord, SuggestionStatus, TimeEvent,
    TriggerType,
};
use crate::forest::has_task;
use crate::sorting::{keys_of, sort_event_keys, sort_i64, sort_i64_vec, sort_keys, event_keys};
use crate::store::Store;

verus! {

/// Seconds of the switch-counting window before a trigger.
pub const SWITCH_WINDOW_SECONDS: i64 = 1800;

/// `start` or `resume`.
pub open spec fn focus_kind(t: EventType) -> bool {
    t == EventType::Start || t == EventType::Resume
}

/// `pause` or `stop`.
pub open spec fn close_kind(t: EventType) -> bool {
    t == EventType::Pause || t == EventType::Stop
}

/// Scans a `(ts, id)`-ordered key sequence for one task's focus sessions up to
/// `until`: an open `start`/`resume` begins a session, the matching
/// `pause`/`stop` closes it; redundant opens and closes are ignored. Returns
/// the still-open start and the closed sessions' positive lengths, in order.
pub open spec fn session_scan(ks: Seq<EventKey>, tid: u64, until: i64) -> (Option<i64>, Seq<i64>)
    decreases ks.len(),
{
    if ks.len() == 0 {
        (Option::None, Seq::empty())
    } else {
        let prev = session_scan(ks.drop_last(), tid, until);
        let e = ks.last();
        if e.task_id != tid || e.ts > until {
            prev
        } else if focus_kind(e.event_type) {
            match prev.0 {
                Option::None => (Option::Some(e.ts), prev.1),
                Option::Some(s) => (Option::Some(s), prev.1),
            }
        } else if close_kind(e.event_type) {
            match prev.0 {
                Option::Some(s) => (
                    Option::None,
                    if e.ts > s {
                        prev.1.push((e.ts - s) as i64)
                    } else {
                        prev.1
                    },
                ),
                Option::None => prev,
            }
        } else {
            prev
        }
    }
}

/// The closed focus sessions of one task, from the canonically ordered log,
/// considering only events with `ts <= until`.
pub open spec fn completed_sessions(events: Seq<TimeEvent>, tid: u64, until: i64) -> Seq<i64> {
    session_scan(sort_keys(keys_of(events)), tid, until).1
}

/// With non-negative timestamps, closed sessions have positive lengths and an
/// open session started at a non-negative time.
pub proof fn lemma_sessions_positive(ks: Seq<EventKey>, tid: u64, until: i64)
    requires
        forall|i: int| 0 <= i < ks.len() ==> (#[trigger] ks[i]).ts >= 0,
    ensures
        forall|i: int|
            0 <= i < session_scan(ks, tid, until).1.len() ==> #[trigger] session_scan(
                ks,
                tid,
                until,
            ).1[i] >= 1,
        match session_scan(ks, tid, until).0 {
            Option::Some(since) => since >= 0,
            Option::None => true,
        },
    decreases ks.len(),
{
    if ks.len() > 0 {
        assert(forall|i: int|
            0 <= i < ks.drop_last().len() ==> (#[trigger] ks.drop_last()[i]).ts >= 0);
        lemma_sessions_positive(ks.drop_last(), tid, until);
        assert(ks[ks.len() - 1].ts >= 0);
    }
}

/// Scans `(ts, id)`-ordered keys and counts adjacent focus events with
/// different tasks, among focus events whose `ts` lies in `[lo, hi]`. Returns
/// the last focus task seen and the switch count.
pub open spec fn switch_scan(ks: Seq<EventKey>, lo: i64, hi: i64) -> (Option<u64>, int)
    decreases ks.len(),
{
    if ks.len() == 0 {
        (Option::None, 0)
    } else {
        let prev = switch_scan(ks.drop_last(), lo, hi);
        let e = ks.last();
        if !focus_kind(e.event_type) || e.ts < lo || e.ts > hi {
            prev
        } else {
            match prev.0 {
                Option::None => (Option::Some(e.task_id), prev.1),
                Option::Some(p) => (
                    Option::Some(e.task_id),
                    if p != e.task_id {
                        prev.1 + 1
                    } else {
                        prev.1
                    },
                ),
            }
        }
    }
}

/// The switch count never exceeds the number of scanned events.
pub proof fn lemma_switch_scan_bound(ks: Seq<EventKey>, lo: i64, hi: i64)
    ensures
        0 <= switch_scan(ks, lo, hi).1 <= ks.len(),
    decreases ks.len(),
{
    if ks.len() > 0 {
        lemma_switch_scan_bound(ks.drop_last(), lo, hi);
    }
}

/// Number of task switches among the focus events in `[lo, hi]`, in canonical
/// order.
pub open spec fn switch_count_spec(events: Seq<TimeEvent>, lo: i64, hi: i64) -> int {
    switch_scan(sort_keys(keys_of(events)), lo, hi).1
}

/// Computes one task's closed focus sessions up to `until_ts`, in order.
pub fn completed_session_durations(events: &Vec<TimeEvent>, task_id: u64, until_ts: i64) -> (r: Vec<
    i64,
>)
    requires
        forall|i: int| 0 <= i < events@.len() ==> (#[trigger] events@[i]).ts >= 0,
    ensures
        r@ == completed_sessions(events@, task_id, until_ts),
        forall|i: int| 0 <= i < r@.len() ==> #[trigger] r@[i] >= 1,
{
    let keys = event_keys(events);
    let sorted = sort_event_keys(&keys);
    let ghost ks = sorted@;
    let mut open_since: Option<i64> = Option::None;
    let mut sessions: Vec<i64> = Vec::new();
    let mut i: usize = 0;
    proof {
        crate::sorting::lemma_sort_keys_elems(keys_of(events@));
        assert forall|m: int| 0 <= m < ks.len() implies (#[trigger] ks[m]).ts >= 0 by {
            assert(keys_of(events@).contains(ks[m]));
            let k = choose|k: int|
                0 <= k < keys_of(events@).len() && keys_of(events@)[k] == ks[m];
            assert(events@[k].ts >= 0);
        }
        lemma_sessions_positive(ks, task_id, until_ts);
    }
    while i < sorted.len()
        invariant
            0 <= i <= ks.len(),
            sorted@ == ks,
            forall|m: int| 0 <= m < ks.len() ==> (#[trigger] ks[m]).ts >= 0,
            (open_since, sessions@) == session_scan(ks.take(i as int), task_id, until_ts),
            match open_since {
                Option::Some(since) => since >= 0,
                Option::None => true,
            },
            forall|m: int|
                0 <= m < session_scan(ks, task_id, until_ts).1.len() ==> #[trigger] session_scan(
                    ks,
                    task_id,
                    until_ts,
                ).1[m] >= 1,
            forall|m: int| 0 <= m < sessions@.len() ==> #[trigger] sessions@[m] >= 1,
        decreases ks.len() - i,
    {
        proof {
            assert(ks.take(i + 1).drop_last() =~= ks.take(i as int));
            assert(ks.take(i + 1).last() == ks[i as int]);
            assert(forall|m: int|
                0 <= m < ks.take(i + 1).len() ==> (#[trigger] ks.take(i + 1)[m]).ts >= 0);
            lemma_sessions_positive(ks.take(i + 1), task_id, until_ts);
        }
        let e = sorted[i];
        if e.task_id == task_id && e.ts <= until_ts {
            let focus = match e.event_type {
                EventType::Start => true,
                EventType::Resume => true,
                _ => false,
            };
            let close = match e.event_type {
                EventType::Pause => true,
                EventType::Stop => true,
                _ => false,
            };
            if focus {
                if open_since.is_none() {
                    open_since = Option::Some(e.ts);
                }
            } else if close {
                match open_since {
                    Option::Some(since) => {
                        if e.ts > since {
                            let ghost snew = session_scan(ks.take(i + 1), task_id, until_ts).1;
                            assert(snew[snew.len() - 1] >= 1);
                            sessions.push(e.ts - since);
                        }
                        open_since = Option::None;
                    },
                    Option::None => {},
                }
            }
        }
        i = i + 1;
    }
    proof {
        assert(ks.take(ks.len() as int) =~= ks);
    }
    sessions
}

/// The length of the last closed session of `task_id` up to `until_ts`, if
/// any session has closed.
pub fn latest_closed_session_duration(events: &Vec<TimeEvent>, task_id: u64, until_ts: i64) -> (r:
    Option<i64>)
    requires
        forall|i: int| 0 <= i < events@.len() ==> (#[trigger] events@[i]).ts >= 0,
    ensures
        ({
            let ss = completed_sessions(events@, task_id, until_ts);
            match r {
                Option::Some(d) => ss.len() > 0 && d == ss.last(),
                Option::None => ss.len() == 0,
            }
        }),
{
    let sessions = completed_session_durations(events, task_id, until_ts);
    if sessions.len() == 0 {
        Option::None
    } else {
        Option::Some(sessions[sessions.len() - 1])
    }
}

/// Counts task switches among focus events with `ts` in `[window_start,
/// window_end]`.
pub fn count_task_switches(events: &Vec<TimeEvent>, window_start: i64, window_end: i64) -> (r: i64)
    requires
        events@.len() <= 0x1000_0000_0000_0000,
    ensures
        r == switch_count_spec(events@, window_start, window_end),
{
    let keys = event_keys(events);
    let sorted = sort_event_keys(&keys);
    let ghost ks = sorted@;
    proof {
        crate::sorting::lemma_sort_keys_sorted(keys_of(events@));
    }
    let mut prev_task: Option<u64> = Option::None;
    let mut switches: i64 = 0;
    let mut i: usize = 0;
    while i < sorted.len()
        invariant
            0 <= i <= ks.len(),
            ks.len() <= 0x1000_0000_0000_0000,
            sorted@ == ks,
            (prev_task, switches as int) == switch_scan(ks.take(i as int), window_start, window_end),
            0 <= switches <= i,
        decreases ks.len() - i,
    {
        proof {
            assert(ks.take(i + 1).drop_last() =~= ks.take(i as int));
            assert(ks.take(i + 1).last() == ks[i as int]);
            lemma_switch_scan_bound(ks.take(i + 1), window_start, window_end);
            lemma_switch_scan_bound(ks.take(i as int), window_start, window_end);
        }
        let e = sorted[i];
        let focus = match e.event_type {
            EventType::Start => true,
            EventType::Resume => true,
            _ => false,
        };
        if focus && e.ts >= window_start && e.ts <= window_end {
            match prev_task {
                Option::Some(p) => {
                    if p != e.task_id {
                        switches = switches + 1;
                    }
                },
                Option::None => {},
            }
            prev_task = Option::Some(e.task_id);
        }
        i = i + 1;
    }
    proof {
        assert(ks.take(ks.len() as int) =~= ks);
    }
    switches
}

/// The integer median with the lower-of-two rule: the mean of the two middle
/// values for even counts, the middle value for odd counts, zero when empty.
pub open spec fn median_of(values: Seq<i64>) -> int {
    let sorted = sort_i64(values);
    let mid = values.len() as int / 2;
    if values.len() == 0 {
        0
    } else if values.len() % 2 == 0 {
        (sorted[mid - 1] + sorted[mid]) / 2
    } else {
        sorted[mid] as int
    }
}

/// Every element of `insert_i64` is the inserted one or an original.
proof fn lemma_insert_i64_elems(s: Seq<i64>, x: i64)
    ensures
        insert_len_i64(s, x),
        forall|i: int|
            0 <= i < crate::sorting::insert_i64(s, x).len() ==> (
            #[trigger] crate::sorting::insert_i64(s, x)[i] == x || s.contains(
                crate::sorting::insert_i64(s, x)[i],
            )),
    decreases s.len(),
{
    if s.len() == 0 {
    } else if s.last() <= x {
    } else {
        lemma_insert_i64_elems(s.drop_last(), x);
        assert forall|i: int| 0 <= i < crate::sorting::insert_i64(s, x).len() implies (
        #[trigger] crate::sorting::insert_i64(s, x)[i] == x || s.contains(
            crate::sorting::insert_i64(s, x)[i],
        )) by {
            let r = crate::sorting::insert_i64(s.drop_last(), x).push(s.last());
            if i == r.len() - 1 {
                assert(s[s.len() - 1] == s.last());
            } else {
                assert(r[i] == crate::sorting::insert_i64(s.drop_last(), x)[i]);
                if crate::sorting::insert_i64(s.drop_last(), x)[i] != x {
                    let j = choose|j: int|
                        0 <= j < s.drop_last().len() && s.drop_last()[j] == crate::sorting::insert_i64(
                            s.drop_last(),
                            x,
                        )[i];
                    assert(s[j] == crate::sorting::insert_i64(s, x)[i]);
                }
            }
        }
    }
}

/// Length bookkeeping for `insert_i64`.
pub open spec fn insert_len_i64(s: Seq<i64>, x: i64) -> bool {
    crate::sorting::insert_i64(s, x).len() == s.len() + 1
}

/// Inserting into an ascending sequence keeps it ascending.
proof fn lemma_insert_i64_sorted(s: Seq<i64>, x: i64)
    requires
        forall|i: int, j: int| 0 <= i < j < s.len() ==> s[i] <= s[j],
    ensures
        forall|i: int, j: int|
            0 <= i < j < crate::sorting::insert_i64(s, x).len() ==> crate::sorting::insert_i64(
                s,
                x,
            )[i] <= crate::sorting::insert_i64(s, x)[j],
    decreases s.len(),
{
    if s.len() == 0 {
    } else if s.last() <= x {
        let r = s.push(x);
        assert forall|i: int, j: int| 0 <= i < j < r.len() implies r[i] <= r[j] by {
            if j == s.len() {
                if i < s.len() - 1 {
                    assert(s[i] <= s[s.len() - 1]);
                }
            }
        }
    } else {
        assert(forall|i: int, j: int|
            0 <= i < j < s.drop_last().len() ==> s.drop_last()[i] <= s.drop_last()[j]);
        lemma_insert_i64_sorted(s.drop_last(), x);
        lemma_insert_i64_elems(s.drop_last(), x);
        let r = crate::sorting::insert_i64(s.drop_last(), x).push(s.last());
        assert forall|i: int, j: int| 0 <= i < j < r.len() implies r[i] <= r[j] by {
            if j == r.len() - 1 {
                let y = crate::sorting::insert_i64(s.drop_last(), x)[i];
                if y == x {
                } else {
                    let k = choose|k: int| 0 <= k < s.drop_last().len() && s.drop_last()[k] == y;
                    assert(s[k] <= s[s.len() - 1]);
                }
            }
        }
    }
}

/// The sorted durations: ascending, same length, elements drawn from the
/// input.
pub proof fn lemma_sort_i64_facts(s: Seq<i64>)
    ensures
        sort_i64(s).len() == s.len(),
        forall|i: int, j: int| 0 <= i < j < sort_i64(s).len() ==> sort_i64(s)[i] <= sort_i64(s)[j],
        forall|i: int| 0 <= i < sort_i64(s).len() ==> s.contains(#[trigger] sort_i64(s)[i]),
    decreases s.len(),
{
    if s.len() > 0 {
        lemma_sort_i64_facts(s.drop_last());
        lemma_insert_i64_sorted(sort_i64(s.drop_last()), s.last());
        lemma_insert_i64_elems(sort_i64(s.drop_last()), s.last());
        assert forall|i: int| 0 <= i < sort_i64(s).len() implies s.contains(
            #[trigger] sort_i64(s)[i],
        ) by {
            if sort_i64(s)[i] == s.last() {
                assert(s[s.len() - 1] == s.last());
            } else {
                let y = sort_i64(s)[i];
                assert(sort_i64(s.drop_last()).contains(y));
                let k = choose|k: int|
                    0 <= k < sort_i64(s.drop_last()).len() && sort_i64(s.drop_last())[k] == y;
                assert(s.drop_last().contains(sort_i64(s.drop_last())[k]));
                let m = choose|m: int| 0 <= m < s.drop_last().len() && s.drop_last()[m] == y;
                assert(s[m] == y);
            }
        }
    }
}

/// Integer median of non-negative durations, lower-of-two for even counts.
pub fn median_i64(values: &Vec<i64>) -> (r: i64)
    requires
        forall|i: int| 0 <= i < values@.len() ==> #[trigger] values@[i] >= 0,
    ensures
        r == median_of(values@),
        r >= 0,
{
    proof {
        lemma_sort_i64_facts(values@);
    }
    if values.len() == 0 {
        return 0;
    }
    let sorted = sort_i64_vec(values);
    let mid = values.len() / 2;
    if values.len() % 2 == 0 {
        let a = sorted[mid - 1];
        let b = sorted[mid];
        proof {
            assert(values@.contains(a));
            assert(values@.contains(b));
            vstd::arithmetic::div_mod::lemma_hoist_over_denominator(
                (b - a) as int,
                a as int,
                2,
            );
            assert((b - a) + (a as int) * 2 == a + b);
        }
        a + (b - a) / 2
    } else {
        let m = sorted[mid];
        proof {
            assert(values@.contains(m));
        }
        m
    }
}

/// The deviation ratio: how far `focus_seconds` exceeds the median of the
/// earlier closed sessions. Zero without a positive current session, with
/// fewer than two sessions, or with a non-positive baseline.
pub open spec fn deviation_ratio_spec(sessions: Seq<i64>, focus_seconds: i64) -> Ratio {
    if focus_seconds <= 0 {
        Ratio { num: 0, den: 1 }
    } else if sessions.len() < 2 {
        Ratio { num: 0, den: 1 }
    } else {
        let baseline = median_of(sessions.drop_last());
        if baseline <= 0 {
            Ratio { num: 0, den: 1 }
        } else {
            Ratio {
                num: if focus_seconds - baseline >= 0 {
                    (focus_seconds - baseline) as i64
                } else {
                    0
                },
                den: baseline as i64,
            }
        }
    }
}

/// Computes the deviation ratio of `task_id` against its history up to
/// `until_ts`, with the caller-provided current focus duration as the
/// reference.
pub fn compute_deviation_ratio(
    events: &Vec<TimeEvent>,
    task_id: u64,
    focus_seconds: i64,
    until_ts: i64,
) -> (r: Ratio)
    requires
        forall|i: int| 0 <= i < events@.len() ==> (#[trigger] events@[i]).ts >= 0,
    ensures
        r == deviation_ratio_spec(completed_sessions(events@, task_id, until_ts), focus_seconds),
        r.wf(),
{
    let ghost whole = completed_sessions(events@, task_id, until_ts);
    if focus_seconds <= 0 {
        return Ratio::zero();
    }
    let mut sessions = completed_session_durations(events, task_id, until_ts);
    if sessions.len() < 2 {
        return Ratio::zero();
    }
    let _latest = sessions.pop();
    proof {
        assert(sessions@ =~= whole.drop_last());
    }
    let baseline = median_i64(&sessions);
    if baseline <= 0 {
        return Ratio::zero();
    }
    let diff = focus_seconds - baseline;
    let num = if diff >= 0 {
        diff
    } else {
        0
    };
    Ratio { num, den: baseline }
}

/// Sequence of the views of a vector of strings.
pub open spec fn views_of(ss: Seq<String>) -> Seq<Seq<char>> {
    ss.map(|i: int, s: String| s@)
}

/// Reason lines contributed by the focus-duration rule.
pub open spec fn focus_reasons(focus_seconds: i64) -> Seq<Seq<char>> {
    if focus_seconds >= 5400 {
        seq!["continuous focus reached 90+ minutes"@]
    } else if focus_seconds >= 3000 {
        seq!["continuous focus reached 50+ minutes"@]
    } else {
        Seq::empty()
    }
}

/// Reason lines contributed by the switch-frequency rule.
pub open spec fn switch_reasons(switch_count: i64) -> Seq<Seq<char>> {
    if switch_count >= 6 {
        seq!["task switching was very frequent in the last 30 minutes"@]
    } else if switch_count >= 3 {
        seq!["task switching increased in the last 30 minutes"@]
    } else {
        Seq::empty()
    }
}

/// Reason lines contributed by the deviation rule.
pub open spec fn deviation_reasons(ratio: Ratio) -> Seq<Seq<char>> {
    if ratio.spec_ge_one() {
        seq!["focus duration is significantly above historical median"@]
    } else if ratio.spec_ge_half() {
        seq!["focus duration is above historical median"@]
    } else {
        Seq::empty()
    }
}

/// The rule score: focus duration, switch frequency and deviation each add
/// their weight.
pub open spec fn rest_score(focus_seconds: i64, switch_count: i64, ratio: Ratio) -> int {
    (if focus_seconds >= 5400 {
        4int
    } else if focus_seconds >= 3000 {
        2int
    } else {
        0int
    }) + (if switch_count >= 6 {
        4int
    } else if switch_count >= 3 {
        2int
    } else {
        0int
    }) + (if ratio.spec_ge_one() {
        2int
    } else if ratio.spec_ge_half() {
        1int
    } else {
        0int
    })
}

/// Suggested break minutes for a score.
pub open spec fn minutes_for_score(score: int) -> int {
    if score >= 7 {
        15
    } else if score >= 4 {
        8
    } else if score >= 2 {
        3
    } else {
        0
    }
}

/// The reason list: the rules' lines in order, or the stable-rhythm line when
/// no rule fired.
pub open spec fn rest_reasons(focus_seconds: i64, switch_count: i64, ratio: Ratio) -> Seq<
    Seq<char>,
> {
    let all = focus_reasons(focus_seconds) + switch_reasons(switch_count) + deviation_reasons(
        ratio,
    );
    if all.len() == 0 {
        seq!["current rhythm is stable; continuing is reasonable"@]
    } else {
        all
    }
}

/// Evaluates the rest rules: suggested minutes and the reasons, in rule order.
pub fn evaluate_rest_rules(focus_seconds: i64, switch_count_30m: i64, deviation_ratio: Ratio) -> (r:
    (i64, Vec<String>))
    requires
        deviation_ratio.wf(),
    ensures
        r.0 == minutes_for_score(rest_score(focus_seconds, switch_count_30m, deviation_ratio)),
        views_of(r.1@) == rest_reasons(focus_seconds, switch_count_30m, deviation_ratio),
{
    let mut score: i64 = 0;
    let mut reasons: Vec<String> = Vec::new();

    if focus_seconds >= 5400 {
        score = score + 4;
        reasons.push("continuous focus reached 90+ minutes".to_owned());
    } else if focus_seconds >= 3000 {
        score = score + 2;
        reasons.push("continuous focus reached 50+ minutes".to_owned());
    }
    proof {
        assert(views_of(reasons@) =~= focus_reasons(focus_seconds));
    }

    if switch_count_30m >= 6 {
        score = score + 4;
        reasons.push("task switching was very frequent in the last 30 minutes".to_owned());
    } else if switch_count_30m >= 3 {
        score = score + 2;
        reasons.push("task switching increased in the last 30 minutes".to_owned());
    }
    proof {
        assert(views_of(reasons@) =~= focus_reasons(focus_seconds) + switch_reasons(
            switch_count_30m,
        ));
    }

    let ge_one = deviation_ratio.ge_one();
    let ge_half = deviation_ratio.ge_half();
    if ge_one {
        score = score + 2;
        reasons.push("focus duration is significantly above historical median".to_owned());
    } else if ge_half {
        score = score + 1;
        reasons.push("focus duration is above historical median".to_owned());
    }
    proof {
        assert(views_of(reasons@) =~= focus_reasons(focus_seconds) + switch_reasons(
            switch_count_30m,
        ) + deviation_reasons(deviation_ratio));
    }

    let minutes: i64 = if score >= 7 {
        15
    } else if score >= 4 {
        8
    } else if score >= 2 {
        3
    } else {
        0
    };

    if reasons.len() == 0 {
        reasons.push("current rhythm is stable; continuing is reasonable".to_owned());
        proof {
            assert(views_of(reasons@) =~= rest_reasons(
                focus_seconds,
                switch_count_30m,
                deviation_ratio,
            ));
        }
    }
    proof {
        assert(views_of(reasons@) =~= rest_reasons(
            focus_seconds,
            switch_count_30m,
            deviation_ratio,
        ));
    }
    (minutes, reasons)
}

/// The current focus duration the advisor uses: the last closed session of the
/// source task, or zero without a source task or session.
pub open spec fn focus_seconds_spec(events: Seq<TimeEvent>, source: Option<u64>, ts: i64) -> i64 {
    match source {
        Option::None => 0,
        Option::Some(t) => {
            let ss = completed_sessions(events, t, ts);
            if ss.len() == 0 {
                0
            } else {
                ss.last()
            }
        },
    }
}

/// A suggestion row demoted by a newer pending one.
pub open spec fn demoted(r: RestSuggestionRecord, ts: i64) -> RestSuggestionRecord {
    RestSuggestionRecord {
        status: SuggestionStatus::Ignored,
        responded_at: Option::Some(ts),
        ..r
    }
}

/// How the suggestion table looks after a new pending row is written at `ts`:
/// previously pending rows are demoted to ignored, everything else is
/// unchanged, and the new row sits at the end.
pub open spec fn suggestions_after_insert(
    old_rows: Seq<RestSuggestionRecord>,
    new_rows: Seq<RestSuggestionRecord>,
    ts: i64,
) -> bool {
    &&& new_rows.len() == old_rows.len() + 1
    &&& forall|i: int|
        0 <= i < old_rows.len() ==> new_rows[i] == (if old_rows[i].status
            == SuggestionStatus::Pending {
            demoted(old_rows[i], ts)
        } else {
            old_rows[i]
        })
}

/// The shape of the freshly inserted pending suggestion row.
pub open spec fn fresh_suggestion(
    row: RestSuggestionRecord,
    events: Seq<TimeEvent>,
    trigger: TriggerType,
    source: Option<u64>,
    ts: i64,
    id: u64,
) -> bool {
    let focus = focus_seconds_spec(events, source, ts);
    let switches = switch_count_spec(events, (ts - SWITCH_WINDOW_SECONDS) as i64, ts);
    let ratio = match source {
        Option::Some(t) => deviation_ratio_spec(completed_sessions(events, t, ts), focus),
        Option::None => Ratio { num: 0, den: 1 },
    };
    &&& row.id == id
    &&& row.trigger_type == trigger
    &&& row.task_id == source
    &&& row.focus_seconds == focus
    &&& row.switch_count_30m == switches
    &&& row.deviation_ratio == ratio
    &&& row.suggested_minutes == minutes_for_score(rest_score(focus, row.switch_count_30m, ratio))
    &&& views_of(row.reasons@) == rest_reasons(focus, row.switch_count_30m, ratio)
    &&& row.status == SuggestionStatus::Pending
    &&& row.created_at == ts
    &&& row.responded_at is None
}

/// Writes a new pending suggestion: computes the metrics from the log up to
/// `trigger_ts`, evaluates the rules, demotes any pending row to ignored, and
/// appends the new row.
pub fn create_rest_suggestion(
    s: &mut Store,
    trigger_type: TriggerType,
    source_task_id: Option<u64>,
    trigger_ts: i64,
) -> (r: Result<(), AppError>)
    requires
        old(s).inv(),
        trigger_ts >= 0,
        match source_task_id {
            Option::Some(t) => has_task(old(s).tasks@, t),
            Option::None => true,
        },
        old(s).next_suggestion_id < u64::MAX,
    ensures
        final(s).inv(),
        r is Ok,
        final(s).tasks == old(s).tasks,
        final(s).tags == old(s).tags,
        final(s).task_tags == old(s).task_tags,
        final(s).events == old(s).events,
        final(s).next_task_id == old(s).next_task_id,
        final(s).next_tag_id == old(s).next_tag_id,
        final(s).next_event_id == old(s).next_event_id,
        final(s).next_suggestion_id == old(s).next_suggestion_id + 1,
        suggestions_after_insert(old(s).suggestions@, final(s).suggestions@, trigger_ts),
        fresh_suggestion(
            final(s).suggestions@.last(),
            old(s).events@,
            trigger_type,
            source_task_id,
            trigger_ts,
            old(s).next_suggestion_id,
        ),
{
    let focus_seconds: i64 = match source_task_id {
        Option::Some(task_id) => {
            match latest_closed_session_duration(&s.events, task_id, trigger_ts) {
                Option::Some(d) => d,
                Option::None => 0,
            }
        },
        Option::None => 0,
    };
    proof {
        assert(s.events@.len() <= 0x1000_0000_0000_0000);
    }
    let switch_count_30m = count_task_switches(
        &s.events,
        trigger_ts - SWITCH_WINDOW_SECONDS,
        trigger_ts,
    );
    let deviation_ratio: Ratio = match source_task_id {
        Option::Some(task_id) => compute_deviation_ratio(
            &s.events,
            task_id,
            focus_seconds,
            trigger_ts,
        ),
        Option::None => Ratio::zero(),
    };
    let rules = evaluate_rest_rules(focus_seconds, switch_count_30m, deviation_ratio);
    let suggested_minutes = rules.0;
    let reasons = rules.1;

    let ghost before = s.suggestions@;
    let mut i: usize = 0;
    while i < s.suggestions.len()
        invariant
            s.tasks == old(s).tasks,
            s.tags == old(s).tags,
            s.task_tags == old(s).task_tags,
            s.events == old(s).events,
            s.next_task_id == old(s).next_task_id,
            s.next_tag_id == old(s).next_tag_id,
            s.next_event_id == old(s).next_event_id,
            s.next_suggestion_id == old(s).next_suggestion_id,
            s.suggestions@.len() == before.len(),
            0 <= i <= before.len(),
            forall|m: int|
                0 <= m < i ==> s.suggestions@[m] == (if before[m].status
                    == SuggestionStatus::Pending {
                    demoted(before[m], trigger_ts)
                } else {
                    before[m]
                }),
            forall|m: int| i <= m < before.len() ==> s.suggestions@[m] == before[m],
        decreases before.len() - i,
    {
        let pending = match s.suggestions[i].status {
            SuggestionStatus::Pending => true,
            _ => false,
        };
        if pending {
            let row = &mut s.suggestions[i];
            row.status = SuggestionStatus::Ignored;
            row.responded_at = Option::Some(trigger_ts);
        }
        i = i + 1;
    }

    let id = s.next_suggestion_id;
    s.next_suggestion_id = s.next_suggestion_id + 1;
    s.suggestions.push(
        RestSuggestionRecord {
            id,
            trigger_type,
            task_id: source_task_id,
            focus_seconds,
            switch_count_30m,
            deviation_ratio,
            suggested_minutes,
            reasons,
            status: SuggestionStatus::Pending,
            created_at: trigger_ts,
            responded_at: Option::None,
        },
    );
    Ok(())
}

} // verus!
