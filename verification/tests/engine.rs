use timeflies::advisor::{
    completed_session_durations, compute_deviation_ratio, count_task_switches,
    create_rest_suggestion, evaluate_rest_rules, latest_closed_session_duration, median_i64,
};
use timeflies::aggregate::{add_interval, get_overview, replay_exclusive_seconds};
use timeflies::domain::{
    AppError, EventType, Payload, Ratio, Status, SuggestionStatus, TriggerType,
};
use timeflies::service::{
    add_tag_to_task, archive_task, create_task, delete_tasks, insert_subtask_and_start, pause_task,
    remove_tag_from_task, rename_task, reparent_task, respond_rest_suggestion, resume_task,
    start_task, stop_task,
};
use timeflies::store::Store;
use timeflies::textutil::{sanitize_tag, sanitize_title};
use timeflies::window::resolve_window;

fn overview_record(
    resp: &timeflies::domain::OverviewResponse,
    id: u64,
) -> timeflies::domain::TaskRecord {
    resp.tasks.iter().find(|t| t.id == id).expect("record").clone()
}

#[test]
fn single_session_overview() {
    let mut s = Store::new();
    let a = create_task(&mut s, "A".to_string(), None, 1000).unwrap();
    start_task(&mut s, a, 1000).unwrap();
    pause_task(&mut s, a, 1600).unwrap();
    let resp = get_overview(&s, Some("all".to_string()), 1600).unwrap();
    let rec = overview_record(&resp, a);
    assert_eq!(rec.exclusive_seconds, 600);
    assert_eq!(rec.inclusive_seconds, 600);
    assert!(resp.active_task_id.is_none());
    assert_eq!(resp.range, "all");
}

#[test]
fn unique_running_enforcement() {
    let mut s = Store::new();
    let a = create_task(&mut s, "A".to_string(), None, 1000).unwrap();
    start_task(&mut s, a, 1000).unwrap();
    pause_task(&mut s, a, 1600).unwrap();
    let b = create_task(&mut s, "B".to_string(), None, 1700).unwrap();
    start_task(&mut s, b, 1700).unwrap();
    // A is paused: a direct start is the wrong transition
    assert_eq!(start_task(&mut s, a, 1800), Err(AppError::InvalidState));
    // resuming A conflicts with the running B
    assert_eq!(
        resume_task(&mut s, a, 1800),
        Err(AppError::Conflict { task_id: b, status: Status::Running })
    );
}

#[test]
fn insert_subtask_and_auto_resume() {
    let mut s = Store::new();
    let a = create_task(&mut s, "A".to_string(), None, 1000).unwrap();
    start_task(&mut s, a, 2000).unwrap();
    let c = insert_subtask_and_start(&mut s, a, "C".to_string(), 2300).unwrap();
    let ta = s.tasks.iter().find(|t| t.id == a).unwrap();
    let tc = s.tasks.iter().find(|t| t.id == c).unwrap();
    assert_eq!(ta.status, Status::Paused);
    assert_eq!(tc.status, Status::Running);
    stop_task(&mut s, c, 2500).unwrap();
    let ta = s.tasks.iter().find(|t| t.id == a).unwrap();
    assert_eq!(ta.status, Status::Running);
    // the auto-resume event on A carries the child id
    let ev = s
        .events
        .iter()
        .rev()
        .find(|e| e.task_id == a && e.event_type == EventType::Resume)
        .expect("resume event");
    assert_eq!(ev.ts, 2500);
    match &ev.payload {
        Some(Payload::ChildStopped { child_id }) => assert_eq!(*child_id, c),
        other => panic!("unexpected payload {:?}", other),
    }
    // a pending subtask-end suggestion for C exists
    let pending: Vec<_> = s
        .suggestions
        .iter()
        .filter(|r| r.status == SuggestionStatus::Pending)
        .collect();
    assert_eq!(pending.len(), 1);
    assert_eq!(pending[0].trigger_type, TriggerType::SubtaskEnd);
    assert_eq!(pending[0].task_id, Some(c));
}

fn store_with_sessions(lengths: &[i64], last_close: i64) -> (Store, u64) {
    // closed sessions of the given lengths, the last one ending at last_close
    let mut s = Store::new();
    let t = create_task(&mut s, "T".to_string(), None, 0).unwrap();
    let mut cursor = 0i64;
    for (i, len) in lengths.iter().enumerate() {
        let begin = if i + 1 == lengths.len() { last_close - len } else { cursor };
        if i == 0 {
            start_task(&mut s, t, begin).unwrap();
        } else {
            resume_task(&mut s, t, begin).unwrap();
        }
        pause_task(&mut s, t, begin + len).unwrap();
        cursor = begin + len + 100;
    }
    (s, t)
}

#[test]
fn rest_rule_scoring() {
    let (s, t) = store_with_sessions(&[600, 600, 600, 5400], 10000);
    let sessions = completed_session_durations(&s.events, t, 10000);
    assert_eq!(sessions, vec![600, 600, 600, 5400]);
    let focus = latest_closed_session_duration(&s.events, t, 10000).unwrap();
    assert_eq!(focus, 5400);
    let ratio = compute_deviation_ratio(&s.events, t, focus, 10000);
    // (5400 - 600) / 600 = 8.0
    assert_eq!(ratio, Ratio { num: 4800, den: 600 });
    let switches = count_task_switches(&s.events, 10000 - 1800, 10000);
    assert!(switches < 3);
    let (minutes, reasons) = evaluate_rest_rules(focus, switches, ratio);
    assert_eq!(minutes, 8);
    assert!(reasons.contains(&"continuous focus reached 90+ minutes".to_string()));
    assert!(
        reasons.contains(&"focus duration is significantly above historical median".to_string())
    );
}

#[test]
fn reparent_blocked_by_active_subtree() {
    let mut s = Store::new();
    let p = create_task(&mut s, "P".to_string(), None, 10).unwrap();
    let q = create_task(&mut s, "Q".to_string(), Some(p), 20).unwrap();
    let n = create_task(&mut s, "N".to_string(), None, 30).unwrap();
    start_task(&mut s, q, 40).unwrap();
    assert_eq!(
        reparent_task(&mut s, p, Some(n), 50),
        Err(AppError::Conflict { task_id: q, status: Status::Running })
    );
    stop_task(&mut s, q, 60).unwrap();
    reparent_task(&mut s, p, Some(n), 70).unwrap();
    let tp = s.tasks.iter().find(|t| t.id == p).unwrap();
    assert_eq!(tp.parent_id, Some(n));
    let ev = s.events.last().unwrap();
    assert_eq!(ev.event_type, EventType::Reparent);
    match &ev.payload {
        Some(Payload::Reparent { old_parent_id, new_parent_id }) => {
            assert_eq!(*old_parent_id, None);
            assert_eq!(*new_parent_id, Some(n));
        },
        other => panic!("unexpected payload {:?}", other),
    }
}

#[test]
fn pending_supersession() {
    let mut s = Store::new();
    let t = create_task(&mut s, "T".to_string(), None, 0).unwrap();
    create_rest_suggestion(&mut s, TriggerType::TaskSwitch, Some(t), 100).unwrap();
    let s1 = s.suggestions.last().unwrap().id;
    create_rest_suggestion(&mut s, TriggerType::TaskSwitch, Some(t), 200).unwrap();
    let first = s.suggestions.iter().find(|r| r.id == s1).unwrap();
    assert_eq!(first.status, SuggestionStatus::Ignored);
    assert_eq!(first.responded_at, Some(200));
    let pending: Vec<_> = s
        .suggestions
        .iter()
        .filter(|r| r.status == SuggestionStatus::Pending)
        .collect();
    assert_eq!(pending.len(), 1);
    assert_ne!(pending[0].id, s1);
}

#[test]
fn window_clipping_both_sides() {
    // session [100, 200) against window [150, 180): clipped to 30
    assert_eq!(add_interval(0, 100, 200, Some(150), 180), 30);
    // entirely outside contributes nothing
    assert_eq!(add_interval(0, 10, 20, Some(50), 60), 0);
    assert_eq!(add_interval(7, 90, 95, Some(50), 60), 7);
}

#[test]
fn open_session_accounted_to_window_end() {
    let mut s = Store::new();
    let t = create_task(&mut s, "T".to_string(), None, 0).unwrap();
    start_task(&mut s, t, 100).unwrap();
    // still open at the window end 150: accounted up to it
    assert_eq!(replay_exclusive_seconds(&s.events, Some(0), 150, t), 50);
    assert_eq!(replay_exclusive_seconds(&s.events, None, 150, t), 50);
}

#[test]
fn deviation_ratio_needs_two_sessions() {
    let (s, t) = store_with_sessions(&[600], 1000);
    let ratio = compute_deviation_ratio(&s.events, t, 600, 1000);
    assert_eq!(ratio, Ratio { num: 0, den: 1 });
    let empty = Store::new();
    let ratio = compute_deviation_ratio(&empty.events, 1, 600, 1000);
    assert_eq!(ratio, Ratio { num: 0, den: 1 });
}

#[test]
fn window_labels() {
    assert_eq!(resolve_window(None, 1000000).unwrap(), (None, "all".to_string()));
    assert_eq!(
        resolve_window(Some("day".to_string()), 1000000).unwrap(),
        (Some(1000000 - 86400), "day".to_string())
    );
    assert_eq!(
        resolve_window(Some("week".to_string()), 1000000).unwrap(),
        (Some(1000000 - 604800), "week".to_string())
    );
    assert_eq!(
        resolve_window(Some("fortnight".to_string()), 1000000),
        Err(AppError::InvalidInput)
    );
    let (ws, label) = resolve_window(Some("today".to_string()), 1000000).unwrap();
    assert_eq!(label, "today");
    assert!(ws.is_some());
}

#[test]
fn median_lower_of_two() {
    assert_eq!(median_i64(&vec![600, 600, 600]), 600);
    assert_eq!(median_i64(&vec![1, 2, 3, 4]), 2);
    assert_eq!(median_i64(&vec![4, 1, 3, 2]), 2);
    assert_eq!(median_i64(&vec![5]), 5);
    assert_eq!(median_i64(&vec![]), 0);
}

#[test]
fn rule_thresholds() {
    let zero = Ratio { num: 0, den: 1 };
    let (m, reasons) = evaluate_rest_rules(0, 0, zero);
    assert_eq!(m, 0);
    assert_eq!(reasons, vec!["current rhythm is stable; continuing is reasonable".to_string()]);
    let (m, reasons) = evaluate_rest_rules(3000, 0, zero);
    assert_eq!(m, 3);
    assert_eq!(reasons, vec!["continuous focus reached 50+ minutes".to_string()]);
    let (m, reasons) = evaluate_rest_rules(0, 3, zero);
    assert_eq!(m, 3);
    assert_eq!(reasons, vec!["task switching increased in the last 30 minutes".to_string()]);
    let (m, reasons) = evaluate_rest_rules(0, 6, Ratio { num: 1, den: 2 });
    // 4 + 1 = 5
    assert_eq!(m, 8);
    assert_eq!(reasons.len(), 2);
    let (m, _) = evaluate_rest_rules(5400, 6, Ratio { num: 3, den: 2 });
    // 4 + 4 + 2 = 10
    assert_eq!(m, 15);
}

#[test]
fn idempotent_transitions() {
    let mut s = Store::new();
    let a = create_task(&mut s, "A".to_string(), None, 0).unwrap();
    start_task(&mut s, a, 10).unwrap();
    let events_before = s.events.len();
    start_task(&mut s, a, 20).unwrap();
    assert_eq!(s.events.len(), events_before);
    pause_task(&mut s, a, 30).unwrap();
    let events_before = s.events.len();
    pause_task(&mut s, a, 40).unwrap();
    assert_eq!(s.events.len(), events_before);
    resume_task(&mut s, a, 50).unwrap();
    let events_before = s.events.len();
    start_task(&mut s, a, 55).unwrap();
    assert_eq!(s.events.len(), events_before);
    stop_task(&mut s, a, 60).unwrap();
    let events_before = s.events.len();
    stop_task(&mut s, a, 70).unwrap();
    assert_eq!(s.events.len(), events_before);
    // responding twice: the second response leaves the row alone
    create_rest_suggestion(&mut s, TriggerType::TaskSwitch, Some(a), 80).unwrap();
    let id = s.suggestions.last().unwrap().id as i64;
    respond_rest_suggestion(&mut s, id, true, 90).unwrap();
    let row = s.suggestions.iter().find(|r| r.id == id as u64).unwrap().clone();
    respond_rest_suggestion(&mut s, id, false, 95).unwrap();
    let row2 = s.suggestions.iter().find(|r| r.id == id as u64).unwrap();
    assert_eq!(row2.status, row.status);
    assert_eq!(row2.responded_at, row.responded_at);
}

#[test]
fn lifecycle_errors() {
    let mut s = Store::new();
    assert_eq!(create_task(&mut s, "   ".to_string(), None, 0), Err(AppError::InvalidInput));
    assert_eq!(create_task(&mut s, "A".to_string(), Some(77), 0), Err(AppError::NotFound { id: 77 }));
    let a = create_task(&mut s, "A".to_string(), None, 0).unwrap();
    assert_eq!(rename_task(&mut s, 99, "B".to_string()), Err(AppError::NotFound { id: 99 }));
    assert_eq!(rename_task(&mut s, a, "  ".to_string()), Err(AppError::InvalidInput));
    assert_eq!(pause_task(&mut s, a, 10), Err(AppError::InvalidState));
    assert_eq!(stop_task(&mut s, a, 10), Err(AppError::InvalidState));
    assert_eq!(resume_task(&mut s, a, 10), Err(AppError::InvalidState));
    assert_eq!(respond_rest_suggestion(&mut s, 0, true, 10), Err(AppError::InvalidInput));
    assert_eq!(
        respond_rest_suggestion(&mut s, 5, true, 10),
        Err(AppError::NotFound { id: 5 })
    );
    assert_eq!(delete_tasks(&mut s, vec![], false, 10), Err(AppError::InvalidInput));
    assert_eq!(reparent_task(&mut s, a, Some(a), 10), Err(AppError::InvalidInput));
    assert_eq!(
        insert_subtask_and_start(&mut s, a, "C".to_string(), 10),
        Err(AppError::InvalidState)
    );
}

#[test]
fn reparent_cycle_rejected() {
    let mut s = Store::new();
    let p = create_task(&mut s, "P".to_string(), None, 0).unwrap();
    let q = create_task(&mut s, "Q".to_string(), Some(p), 1).unwrap();
    let r = create_task(&mut s, "R".to_string(), Some(q), 2).unwrap();
    assert_eq!(
        reparent_task(&mut s, p, Some(r), 10),
        Err(AppError::CycleConflict { task_id: r })
    );
    // no-op reparent to the same parent succeeds without an event
    let n = s.events.len();
    reparent_task(&mut s, q, Some(p), 10).unwrap();
    assert_eq!(s.events.len(), n);
}

#[test]
fn archive_sets_archived_at_and_is_stable() {
    let mut s = Store::new();
    let p = create_task(&mut s, "P".to_string(), None, 0).unwrap();
    let q = create_task(&mut s, "Q".to_string(), Some(p), 1).unwrap();
    archive_task(&mut s, p, 50).unwrap();
    let tp = s.tasks.iter().find(|t| t.id == p).unwrap();
    let tq = s.tasks.iter().find(|t| t.id == q).unwrap();
    assert_eq!(tp.archived_at, Some(50));
    assert_eq!(tq.archived_at, Some(50));
    // archived rows reject further writes and keep their stamp
    assert_eq!(rename_task(&mut s, p, "X".to_string()), Err(AppError::NotFound { id: p }));
    assert_eq!(start_task(&mut s, p, 60), Err(AppError::NotFound { id: p }));
    let tp = s.tasks.iter().find(|t| t.id == p).unwrap();
    assert_eq!(tp.archived_at, Some(50));
}

#[test]
fn archive_blocked_by_active_subtree() {
    let mut s = Store::new();
    let p = create_task(&mut s, "P".to_string(), None, 0).unwrap();
    let q = create_task(&mut s, "Q".to_string(), Some(p), 1).unwrap();
    start_task(&mut s, q, 10).unwrap();
    assert_eq!(
        archive_task(&mut s, p, 20),
        Err(AppError::Conflict { task_id: q, status: Status::Running })
    );
}

#[test]
fn hard_delete_removes_every_reference() {
    let mut s = Store::new();
    let p = create_task(&mut s, "P".to_string(), None, 0).unwrap();
    let q = create_task(&mut s, "Q".to_string(), Some(p), 1).unwrap();
    let other = create_task(&mut s, "Other".to_string(), None, 2).unwrap();
    start_task(&mut s, q, 10).unwrap();
    stop_task(&mut s, q, 20).unwrap();
    add_tag_to_task(&mut s, q, "deep".to_string(), 30).unwrap();
    add_tag_to_task(&mut s, other, "kept".to_string(), 31).unwrap();
    create_rest_suggestion(&mut s, TriggerType::TaskSwitch, Some(q), 40).unwrap();
    delete_tasks(&mut s, vec![p], true, 50).unwrap();
    assert!(s.tasks.iter().all(|t| t.id != p && t.id != q && t.parent_id != Some(p)
        && t.parent_id != Some(q)));
    assert!(s.events.iter().all(|e| e.task_id != p && e.task_id != q));
    assert!(s.suggestions.iter().all(|r| r.task_id != Some(p) && r.task_id != Some(q)));
    assert!(s.task_tags.iter().all(|l| l.task_id != p && l.task_id != q));
    // the orphaned tag is swept, the referenced one stays
    assert!(s.tags.iter().all(|g| g.name != "deep"));
    assert!(s.tags.iter().any(|g| g.name == "kept"));
    assert!(s.tasks.iter().any(|t| t.id == other));
}

#[test]
fn hard_delete_with_archived_child_is_a_storage_error() {
    let mut s = Store::new();
    let p = create_task(&mut s, "P".to_string(), None, 0).unwrap();
    let q = create_task(&mut s, "Q".to_string(), Some(p), 1).unwrap();
    archive_task(&mut s, q, 10).unwrap();
    // the archived child would keep referencing the deleted parent
    assert_eq!(delete_tasks(&mut s, vec![p], true, 20), Err(AppError::Storage));
}

#[test]
fn tags_case_insensitive_and_event_on_change_only() {
    let mut s = Store::new();
    let a = create_task(&mut s, "A".to_string(), None, 0).unwrap();
    add_tag_to_task(&mut s, a, "Focus".to_string(), 10).unwrap();
    assert_eq!(s.tags.len(), 1);
    assert_eq!(s.tags[0].name, "Focus");
    let events_before = s.events.len();
    // same tag up to ASCII case: no new tag, no new link, no event
    add_tag_to_task(&mut s, a, "  focus ".to_string(), 20).unwrap();
    assert_eq!(s.tags.len(), 1);
    assert_eq!(s.task_tags.len(), 1);
    assert_eq!(s.events.len(), events_before);
    // removing by the other case unlinks and appends one event
    remove_tag_from_task(&mut s, a, "FOCUS".to_string(), 30).unwrap();
    assert_eq!(s.task_tags.len(), 0);
    assert_eq!(s.events.len(), events_before + 1);
    assert_eq!(s.events.last().unwrap().event_type, EventType::TagRemove);
    // the tag row itself stays
    assert_eq!(s.tags.len(), 1);
    // removing again is a silent no-op
    let events_before = s.events.len();
    remove_tag_from_task(&mut s, a, "focus".to_string(), 40).unwrap();
    assert_eq!(s.events.len(), events_before);
}

#[test]
fn overview_is_deterministic_and_sorted() {
    let mut s = Store::new();
    let b = create_task(&mut s, "B".to_string(), None, 200).unwrap();
    let a = create_task(&mut s, "A".to_string(), None, 100).unwrap();
    add_tag_to_task(&mut s, a, "beta".to_string(), 300).unwrap();
    add_tag_to_task(&mut s, a, "alpha".to_string(), 301).unwrap();
    start_task(&mut s, a, 400).unwrap();
    pause_task(&mut s, a, 500).unwrap();
    let r1 = get_overview(&s, Some("all".to_string()), 600).unwrap();
    let r2 = get_overview(&s, Some("all".to_string()), 600).unwrap();
    // records are sorted by creation time
    assert_eq!(r1.tasks[0].id, a);
    assert_eq!(r1.tasks[1].id, b);
    // tag names are sorted
    assert_eq!(r1.tasks[0].tags, vec!["alpha".to_string(), "beta".to_string()]);
    // replay is deterministic across calls
    for (x, y) in r1.tasks.iter().zip(r2.tasks.iter()) {
        assert_eq!(x.exclusive_seconds, y.exclusive_seconds);
        assert_eq!(x.inclusive_seconds, y.inclusive_seconds);
    }
    assert_eq!(r1.tasks[0].exclusive_seconds, 100);
}

#[test]
fn inclusive_decomposes_over_children() {
    let mut s = Store::new();
    let p = create_task(&mut s, "P".to_string(), None, 0).unwrap();
    let c1 = create_task(&mut s, "C1".to_string(), Some(p), 1).unwrap();
    let c2 = create_task(&mut s, "C2".to_string(), Some(p), 2).unwrap();
    start_task(&mut s, p, 100).unwrap();
    pause_task(&mut s, p, 150).unwrap();
    start_task(&mut s, c1, 200).unwrap();
    pause_task(&mut s, c1, 230).unwrap();
    start_task(&mut s, c2, 300).unwrap();
    pause_task(&mut s, c2, 320).unwrap();
    let resp = get_overview(&s, Some("all".to_string()), 400).unwrap();
    let rp = overview_record(&resp, p);
    let r1 = overview_record(&resp, c1);
    let r2 = overview_record(&resp, c2);
    assert_eq!(rp.exclusive_seconds, 50);
    assert_eq!(r1.inclusive_seconds, 30);
    assert_eq!(r2.inclusive_seconds, 20);
    assert_eq!(rp.inclusive_seconds, rp.exclusive_seconds + r1.inclusive_seconds + r2.inclusive_seconds);
}

#[test]
fn exclusive_bounded_by_window() {
    let mut s = Store::new();
    let t = create_task(&mut s, "T".to_string(), None, 0).unwrap();
    start_task(&mut s, t, 0).unwrap();
    pause_task(&mut s, t, 1000).unwrap();
    resume_task(&mut s, t, 1100).unwrap();
    stop_task(&mut s, t, 2000).unwrap();
    // window [1500, 1600): only 100 seconds fit
    assert_eq!(replay_exclusive_seconds(&s.events, Some(1500), 1600, t), 100);
    // any window of length L bounds the result by L
    for ws in [0i64, 500, 900, 1500] {
        let we = ws + 200;
        let v = replay_exclusive_seconds(&s.events, Some(ws), we, t);
        assert!(0 <= v && v <= we - ws);
    }
}

#[test]
fn sanitizers_trim() {
    assert_eq!(sanitize_title("  hello "), Ok("hello".to_string()));
    assert_eq!(sanitize_title(" \t "), Err(AppError::InvalidInput));
    assert_eq!(sanitize_tag(" tag "), Ok("tag".to_string()));
    assert_eq!(sanitize_tag(""), Err(AppError::InvalidInput));
}

#[test]
fn task_switch_advisor_fires_on_switch() {
    let mut s = Store::new();
    let a = create_task(&mut s, "A".to_string(), None, 0).unwrap();
    let b = create_task(&mut s, "B".to_string(), None, 0).unwrap();
    start_task(&mut s, a, 10).unwrap();
    assert_eq!(s.suggestions.len(), 0);
    pause_task(&mut s, a, 20).unwrap();
    start_task(&mut s, b, 30).unwrap();
    // focus moved from A to B: one suggestion naming A
    assert_eq!(s.suggestions.len(), 1);
    assert_eq!(s.suggestions[0].trigger_type, TriggerType::TaskSwitch);
    assert_eq!(s.suggestions[0].task_id, Some(a));
    assert_eq!(s.suggestions[0].status, SuggestionStatus::Pending);
}

#[test]
fn at_most_one_running_and_one_pending() {
    let mut s = Store::new();
    let a = create_task(&mut s, "A".to_string(), None, 0).unwrap();
    let b = create_task(&mut s, "B".to_string(), None, 0).unwrap();
    start_task(&mut s, a, 10).unwrap();
    pause_task(&mut s, a, 20).unwrap();
    start_task(&mut s, b, 30).unwrap();
    pause_task(&mut s, b, 40).unwrap();
    resume_task(&mut s, a, 50).unwrap();
    let running = s
        .tasks
        .iter()
        .filter(|t| t.archived_at.is_none() && t.status == Status::Running)
        .count();
    assert!(running <= 1);
    let pending = s
        .suggestions
        .iter()
        .filter(|r| r.status == SuggestionStatus::Pending)
        .count();
    assert!(pending <= 1);
}

#[test]
fn no_task_is_its_own_ancestor() {
    let mut s = Store::new();
    let p = create_task(&mut s, "P".to_string(), None, 0).unwrap();
    let q = create_task(&mut s, "Q".to_string(), Some(p), 1).unwrap();
    let r = create_task(&mut s, "R".to_string(), Some(q), 2).unwrap();
    reparent_task(&mut s, r, None, 10).unwrap();
    reparent_task(&mut s, p, Some(r), 20).unwrap();
    for t in &s.tasks {
        let mut seen = std::collections::HashSet::new();
        let mut cur = t.parent_id;
        while let Some(pid) = cur {
            assert_ne!(pid, t.id, "cycle detected");
            assert!(seen.insert(pid), "cycle detected");
            cur = s.tasks.iter().find(|x| x.id == pid).and_then(|x| x.parent_id);
        }
    }
}
