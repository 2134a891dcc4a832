//! Insertion sorts with exact specifications: event keys by `(ts, id)`,
//! durations ascending, task indices by creation time (stable), and tag names
//! lexicographically.
use vstd::prelude::*;

use crate::domain::{EventKey, Task, TimeEvent};

verus! {

/// The accounting view of one event.
pub open spec fn key_of(e: TimeEvent) -> EventKey {
    EventKey { id: e.id, task_id: e.task_id, event_type: e.event_type, ts: e.ts }
}

/// The accounting view of a whole log.
pub open spec fn keys_of(es: Seq<TimeEvent>) -> Seq<EventKey> {
    es.map(|i: int, e: TimeEvent| key_of(e))
}

/// Canonical event order: by timestamp, ties broken by id.
pub open spec fn key_le(a: EventKey, b: EventKey) -> bool {
    a.ts < b.ts || (a.ts == b.ts && a.id <= b.id)
}

/// Insertion into a `(ts, id)`-sorted key sequence, after any equal keys.
pub open spec fn insert_key(s: Seq<EventKey>, e: EventKey) -> Seq<EventKey>
    decreases s.len(),
{
    if s.len() == 0 {
        seq![e]
    } else if key_le(s.last(), e) {
        s.push(e)
    } else {
        insert_key(s.drop_last(), e).push(s.last())
    }
}

/// Insertion sort of event keys by `(ts, id)`.
pub open spec fn sort_keys(s: Seq<EventKey>) -> Seq<EventKey>
    decreases s.len(),
{
    if s.len() == 0 {
        Seq::empty()
    } else {
        insert_key(sort_keys(s.drop_last()), s.last())
    }
}

/// Every key is `(ts, id)`-below every later key.
pub open spec fn keys_sorted(s: Seq<EventKey>) -> bool {
    forall|i: int, j: int| 0 <= i < j < s.len() ==> key_le(s[i], s[j])
}

/// Whatever `insert_key` holds is the new key or one of the old ones.
proof fn lemma_insert_key_elems(s: Seq<EventKey>, e: EventKey)
    ensures
        insert_key(s, e).len() == s.len() + 1,
        forall|i: int|
            0 <= i < insert_key(s, e).len() ==> (#[trigger] insert_key(s, e)[i] == e
                || s.contains(insert_key(s, e)[i])),
    decreases s.len(),
{
    if s.len() == 0 {
    } else if key_le(s.last(), e) {
    } else {
        lemma_insert_key_elems(s.drop_last(), e);
        assert forall|i: int| 0 <= i < insert_key(s, e).len() implies (#[trigger] insert_key(
            s,
            e,
        )[i] == e || s.contains(insert_key(s, e)[i])) by {
            let r = insert_key(s.drop_last(), e).push(s.last());
            if i == r.len() - 1 {
                assert(s[s.len() - 1] == s.last());
            } else {
                assert(r[i] == insert_key(s.drop_last(), e)[i]);
                if insert_key(s.drop_last(), e)[i] != e {
                    let j = choose|j: int|
                        0 <= j < s.drop_last().len() && s.drop_last()[j] == insert_key(
                            s.drop_last(),
                            e,
                        )[i];
                    assert(s[j] == insert_key(s, e)[i]);
                }
            }
        }
    }
}

/// Inserting into a sorted key sequence keeps it sorted.
proof fn lemma_insert_key_sorted(s: Seq<EventKey>, e: EventKey)
    requires
        keys_sorted(s),
    ensures
        keys_sorted(insert_key(s, e)),
    decreases s.len(),
{
    if s.len() == 0 {
    } else if key_le(s.last(), e) {
        assert forall|i: int, j: int| 0 <= i < j < s.push(e).len() implies key_le(
            s.push(e)[i],
            s.push(e)[j],
        ) by {
            if j == s.len() {
                if i < s.len() - 1 {
                    assert(key_le(s[i], s[s.len() - 1]));
                }
            }
        }
    } else {
        assert(keys_sorted(s.drop_last()));
        lemma_insert_key_sorted(s.drop_last(), e);
        lemma_insert_key_elems(s.drop_last(), e);
        let r = insert_key(s.drop_last(), e).push(s.last());
        assert forall|i: int, j: int| 0 <= i < j < r.len() implies key_le(r[i], r[j]) by {
            if j == r.len() - 1 {
                let x = insert_key(s.drop_last(), e)[i];
                if x == e {
                    assert(key_le(e, s.last()));
                } else {
                    let k = choose|k: int|
                        0 <= k < s.drop_last().len() && s.drop_last()[k] == x;
                    assert(key_le(s[k], s[s.len() - 1]));
                }
            }
        }
    }
}

/// The canonical sort of event keys is sorted.
pub proof fn lemma_sort_keys_sorted(s: Seq<EventKey>)
    ensures
        sort_keys(s).len() == s.len(),
        keys_sorted(sort_keys(s)),
    decreases s.len(),
{
    if s.len() > 0 {
        lemma_sort_keys_sorted(s.drop_last());
        lemma_insert_key_sorted(sort_keys(s.drop_last()), s.last());
        lemma_insert_key_elems(sort_keys(s.drop_last()), s.last());
    }
}

/// Every key of the canonical sort is one of the original keys.
pub proof fn lemma_sort_keys_elems(s: Seq<EventKey>)
    ensures
        sort_keys(s).len() == s.len(),
        forall|i: int| 0 <= i < sort_keys(s).len() ==> s.contains(#[trigger] sort_keys(s)[i]),
    decreases s.len(),
{
    if s.len() > 0 {
        lemma_sort_keys_elems(s.drop_last());
        lemma_insert_key_elems(sort_keys(s.drop_last()), s.last());
        assert forall|i: int| 0 <= i < sort_keys(s).len() implies s.contains(
            #[trigger] sort_keys(s)[i],
        ) by {
            if sort_keys(s)[i] == s.last() {
                assert(s[s.len() - 1] == s.last());
            } else {
                let y = sort_keys(s)[i];
                assert(sort_keys(s.drop_last()).contains(y));
                let k = choose|k: int|
                    0 <= k < sort_keys(s.drop_last()).len() && sort_keys(s.drop_last())[k] == y;
                assert(s.drop_last().contains(sort_keys(s.drop_last())[k]));
                let m = choose|m: int| 0 <= m < s.drop_last().len() && s.drop_last()[m] == y;
                assert(s[m] == y);
            }
        }
    }
}

/// Extracts the accounting keys of a log, in log order.
pub fn event_keys(events: &Vec<TimeEvent>) -> (r: Vec<EventKey>)
    ensures
        r@ == keys_of(events@),
{
    let mut out: Vec<EventKey> = Vec::new();
    let mut i: usize = 0;
    while i < events.len()
        invariant
            0 <= i <= events@.len(),
            out@ == keys_of(events@.take(i as int)),
        decreases events@.len() - i,
    {
        let e = &events[i];
        out.push(EventKey { id: e.id, task_id: e.task_id, event_type: e.event_type, ts: e.ts });
        proof {
            assert(keys_of(events@.take(i + 1)) =~= keys_of(events@.take(i as int)).push(
                key_of(events@[i as int]),
            ));
        }
        i = i + 1;
    }
    proof {
        assert(events@.take(events@.len() as int) =~= events@);
    }
    out
}

/// Inserts one key into a sorted vector, after any equal keys.
fn insert_key_exec(v: &mut Vec<EventKey>, e: EventKey)
    ensures
        final(v)@ == insert_key(old(v)@, e),
{
    let ghost s = v@;
    let mut j: usize = v.len();
    proof {
        assert(s.take(s.len() as int) =~= s);
        assert(s.skip(s.len() as int) =~= Seq::<EventKey>::empty());
        assert(insert_key(s, e) + Seq::<EventKey>::empty() =~= insert_key(s, e));
    }
    loop
        invariant
            0 <= j <= s.len(),
            v@ == s,
            insert_key(s, e) == insert_key(s.take(j as int), e) + s.skip(j as int),
        ensures
            0 <= j <= s.len(),
            v@ == s,
            insert_key(s, e) == insert_key(s.take(j as int), e) + s.skip(j as int),
            j == 0 || key_le(s[j - 1], e),
        decreases j,
    {
        if j == 0 {
            break ;
        }
        let prev = v[j - 1];
        if prev.ts < e.ts || (prev.ts == e.ts && prev.id <= e.id) {
            break ;
        }
        proof {
            let jj = j as int;
            assert(s.take(jj).last() == s[jj - 1]);
            assert(s.take(jj).drop_last() =~= s.take(jj - 1));
            assert(insert_key(s.take(jj), e) == insert_key(s.take(jj - 1), e).push(s[jj - 1]));
            assert(insert_key(s.take(jj - 1), e).push(s[jj - 1]) + s.skip(jj) =~= insert_key(
                s.take(jj - 1),
                e,
            ) + s.skip(jj - 1));
        }
        j = j - 1;
    }
    proof {
        let jj = j as int;
        if j == 0 {
            assert(s.take(0) =~= Seq::<EventKey>::empty());
            assert(insert_key(s.take(0), e) =~= seq![e]);
        } else {
            assert(s.take(jj).last() == s[jj - 1]);
            assert(key_le(s[jj - 1], e));
            assert(insert_key(s.take(jj), e) == s.take(jj).push(e));
        }
        assert(insert_key(s.take(jj), e) =~= s.take(jj).push(e));
        assert(s.take(jj).push(e) + s.skip(jj) =~= s.insert(jj, e));
    }
    v.insert(j, e);
}

/// Sorts the accounting keys of a log into canonical `(ts, id)` order.
pub fn sort_event_keys(keys: &Vec<EventKey>) -> (r: Vec<EventKey>)
    ensures
        r@ == sort_keys(keys@),
{
    let mut out: Vec<EventKey> = Vec::new();
    let mut i: usize = 0;
    while i < keys.len()
        invariant
            0 <= i <= keys@.len(),
            out@ == sort_keys(keys@.take(i as int)),
        decreases keys@.len() - i,
    {
        proof {
            assert(keys@.take(i + 1).drop_last() =~= keys@.take(i as int));
            assert(keys@.take(i + 1).last() == keys@[i as int]);
        }
        insert_key_exec(&mut out, keys[i]);
        i = i + 1;
    }
    proof {
        assert(keys@.take(keys@.len() as int) =~= keys@);
    }
    out
}

/// Insertion into an ascending duration sequence, after any equal values.
pub open spec fn insert_i64(s: Seq<i64>, x: i64) -> Seq<i64>
    decreases s.len(),
{
    if s.len() == 0 {
        seq![x]
    } else if s.last() <= x {
        s.push(x)
    } else {
        insert_i64(s.drop_last(), x).push(s.last())
    }
}

/// Insertion sort of durations, ascending.
pub open spec fn sort_i64(s: Seq<i64>) -> Seq<i64>
    decreases s.len(),
{
    if s.len() == 0 {
        Seq::empty()
    } else {
        insert_i64(sort_i64(s.drop_last()), s.last())
    }
}

/// Inserts one duration into a sorted vector.
fn insert_i64_exec(v: &mut Vec<i64>, x: i64)
    ensures
        final(v)@ == insert_i64(old(v)@, x),
{
    let ghost s = v@;
    let mut j: usize = v.len();
    proof {
        assert(s.take(s.len() as int) =~= s);
        assert(s.skip(s.len() as int) =~= Seq::<i64>::empty());
        assert(insert_i64(s, x) + Seq::<i64>::empty() =~= insert_i64(s, x));
    }
    loop
        invariant
            0 <= j <= s.len(),
            v@ == s,
            insert_i64(s, x) == insert_i64(s.take(j as int), x) + s.skip(j as int),
        ensures
            0 <= j <= s.len(),
            v@ == s,
            insert_i64(s, x) == insert_i64(s.take(j as int), x) + s.skip(j as int),
            j == 0 || s[j - 1] <= x,
        decreases j,
    {
        if j == 0 {
            break ;
        }
        if v[j - 1] <= x {
            break ;
        }
        proof {
            let jj = j as int;
            assert(s.take(jj).last() == s[jj - 1]);
            assert(s.take(jj).drop_last() =~= s.take(jj - 1));
            assert(insert_i64(s.take(jj), x) == insert_i64(s.take(jj - 1), x).push(s[jj - 1]));
            assert(insert_i64(s.take(jj - 1), x).push(s[jj - 1]) + s.skip(jj) =~= insert_i64(
                s.take(jj - 1),
                x,
            ) + s.skip(jj - 1));
        }
        j = j - 1;
    }
    proof {
        let jj = j as int;
        if j == 0 {
            assert(s.take(0) =~= Seq::<i64>::empty());
            assert(insert_i64(s.take(0), x) =~= seq![x]);
        } else {
            assert(s.take(jj).last() == s[jj - 1]);
            assert(insert_i64(s.take(jj), x) == s.take(jj).push(x));
        }
        assert(insert_i64(s.take(jj), x) =~= s.take(jj).push(x));
        assert(s.take(jj).push(x) + s.skip(jj) =~= s.insert(jj, x));
    }
    v.insert(j, x);
}

/// Sorts durations ascending.
pub fn sort_i64_vec(values: &Vec<i64>) -> (r: Vec<i64>)
    ensures
        r@ == sort_i64(values@),
{
    let mut out: Vec<i64> = Vec::new();
    let mut i: usize = 0;
    while i < values.len()
        invariant
            0 <= i <= values@.len(),
            out@ == sort_i64(values@.take(i as int)),
        decreases values@.len() - i,
    {
        proof {
            assert(values@.take(i + 1).drop_last() =~= values@.take(i as int));
            assert(values@.take(i + 1).last() == values@[i as int]);
        }
        insert_i64_exec(&mut out, values[i]);
        i = i + 1;
    }
    proof {
        assert(values@.take(values@.len() as int) =~= values@);
    }
    out
}

/// Stable order of task indices: by `created_at`, ties by original position.
pub open spec fn idx_le(ts: Seq<Task>, a: usize, b: usize) -> bool {
    ts[a as int].created_at < ts[b as int].created_at || (ts[a as int].created_at
        == ts[b as int].created_at && a <= b)
}

/// Insertion into an index sequence sorted by `idx_le`.
pub open spec fn insert_idx(ts: Seq<Task>, s: Seq<usize>, x: usize) -> Seq<usize>
    decreases s.len(),
{
    if s.len() == 0 {
        seq![x]
    } else if idx_le(ts, s.last(), x) {
        s.push(x)
    } else {
        insert_idx(ts, s.drop_last(), x).push(s.last())
    }
}

/// Insertion sort of task indices by `idx_le`.
pub open spec fn sort_idx(ts: Seq<Task>, s: Seq<usize>) -> Seq<usize>
    decreases s.len(),
{
    if s.len() == 0 {
        Seq::empty()
    } else {
        insert_idx(ts, sort_idx(ts, s.drop_last()), s.last())
    }
}

/// The indices of the non-archived tasks, in table order.
pub open spec fn live_indices(ts: Seq<Task>) -> Seq<usize>
    decreases ts.len(),
{
    if ts.len() == 0 {
        Seq::empty()
    } else if ts.last().archived_at is None {
        live_indices(ts.drop_last()).push((ts.len() - 1) as usize)
    } else {
        live_indices(ts.drop_last())
    }
}

/// The order in which an overview lists tasks: the non-archived ones, stably
/// sorted by creation time.
pub open spec fn overview_order(ts: Seq<Task>) -> Seq<usize> {
    sort_idx(ts, live_indices(ts))
}

/// Inserts one task index into a vector sorted by `idx_le`.
fn insert_idx_exec(tasks: &Vec<Task>, v: &mut Vec<usize>, x: usize)
    requires
        x < tasks@.len(),
        forall|m: int| 0 <= m < old(v)@.len() ==> (#[trigger] old(v)@[m]) < tasks@.len(),
    ensures
        final(v)@ == insert_idx(tasks@, old(v)@, x),
        forall|m: int| 0 <= m < final(v)@.len() ==> (#[trigger] final(v)@[m]) < tasks@.len(),
{
    let ghost ts = tasks@;
    let ghost s = v@;
    let mut j: usize = v.len();
    proof {
        assert(s.take(s.len() as int) =~= s);
        assert(s.skip(s.len() as int) =~= Seq::<usize>::empty());
        assert(insert_idx(ts, s, x) + Seq::<usize>::empty() =~= insert_idx(ts, s, x));
    }
    loop
        invariant
            0 <= j <= s.len(),
            v@ == s,
            x < ts.len(),
            forall|m: int| 0 <= m < s.len() ==> (#[trigger] s[m]) < ts.len(),
            tasks@ == ts,
            insert_idx(ts, s, x) == insert_idx(ts, s.take(j as int), x) + s.skip(j as int),
        ensures
            0 <= j <= s.len(),
            v@ == s,
            tasks@ == ts,
            insert_idx(ts, s, x) == insert_idx(ts, s.take(j as int), x) + s.skip(j as int),
            j == 0 || idx_le(ts, s[j - 1], x),
        decreases j,
    {
        if j == 0 {
            break ;
        }
        let p = v[j - 1];
        if tasks[p].created_at < tasks[x].created_at || (tasks[p].created_at
            == tasks[x].created_at && p <= x) {
            break ;
        }
        proof {
            let jj = j as int;
            assert(s.take(jj).last() == s[jj - 1]);
            assert(s.take(jj).drop_last() =~= s.take(jj - 1));
            assert(insert_idx(ts, s.take(jj), x) == insert_idx(ts, s.take(jj - 1), x).push(
                s[jj - 1],
            ));
            assert(insert_idx(ts, s.take(jj - 1), x).push(s[jj - 1]) + s.skip(jj) =~= insert_idx(
                ts,
                s.take(jj - 1),
                x,
            ) + s.skip(jj - 1));
        }
        j = j - 1;
    }
    proof {
        let jj = j as int;
        if j == 0 {
            assert(s.take(0) =~= Seq::<usize>::empty());
            assert(insert_idx(ts, s.take(0), x) =~= seq![x]);
        } else {
            assert(s.take(jj).last() == s[jj - 1]);
            assert(insert_idx(ts, s.take(jj), x) == s.take(jj).push(x));
        }
        assert(insert_idx(ts, s.take(jj), x) =~= s.take(jj).push(x));
        assert(s.take(jj).push(x) + s.skip(jj) =~= s.insert(jj, x));
    }
    v.insert(j, x);
}

/// Computes the overview order of a task table.
pub fn overview_order_exec(tasks: &Vec<Task>) -> (r: Vec<usize>)
    ensures
        r@ == overview_order(tasks@),
        forall|m: int| 0 <= m < r@.len() ==> (#[trigger] r@[m]) < tasks@.len(),
{
    let mut live: Vec<usize> = Vec::new();
    let mut i: usize = 0;
    while i < tasks.len()
        invariant
            0 <= i <= tasks@.len(),
            live@ == live_indices(tasks@.take(i as int)),
            forall|m: int| 0 <= m < live@.len() ==> (#[trigger] live@[m]) < i,
        decreases tasks@.len() - i,
    {
        proof {
            assert(tasks@.take(i + 1).drop_last() =~= tasks@.take(i as int));
            assert(tasks@.take(i + 1).last() == tasks@[i as int]);
        }
        if tasks[i].archived_at.is_none() {
            live.push(i);
        }
        i = i + 1;
    }
    proof {
        assert(tasks@.take(tasks@.len() as int) =~= tasks@);
    }
    let ghost lv = live@;
    let mut out: Vec<usize> = Vec::new();
    let mut k: usize = 0;
    while k < live.len()
        invariant
            0 <= k <= lv.len(),
            live@ == lv,
            forall|m: int| 0 <= m < lv.len() ==> (#[trigger] lv[m]) < tasks@.len(),
            out@ == sort_idx(tasks@, lv.take(k as int)),
            forall|m: int| 0 <= m < out@.len() ==> (#[trigger] out@[m]) < tasks@.len(),
        decreases lv.len() - k,
    {
        proof {
            assert(lv.take(k + 1).drop_last() =~= lv.take(k as int));
            assert(lv.take(k + 1).last() == lv[k as int]);
        }
        insert_idx_exec(tasks, &mut out, live[k]);
        k = k + 1;
    }
    proof {
        assert(lv.take(lv.len() as int) =~= lv);
    }
    out
}

/// A filtered sequence is an order-preserving selection of the original: each
/// element comes from the original, and any two keep their relative positions.
pub proof fn lemma_filter_ordered<A>(s: Seq<A>, pred: spec_fn(A) -> bool)
    ensures
        forall|a: int|
            0 <= a < s.filter(pred).len() ==> exists|i: int|
                0 <= i < s.len() && s[i] == #[trigger] s.filter(pred)[a],
        forall|a: int, b: int|
            0 <= a < b < s.filter(pred).len() ==> exists|i: int, j: int|
                0 <= i < j < s.len() && s[i] == #[trigger] s.filter(pred)[a] && s[j]
                    == #[trigger] s.filter(pred)[b],
    decreases s.len(),
{
    reveal(Seq::filter);
    if s.len() > 0 {
        lemma_filter_ordered(s.drop_last(), pred);
        let f = s.filter(pred);
        let fp = s.drop_last().filter(pred);
        assert forall|a: int| 0 <= a < f.len() implies exists|i: int|
            0 <= i < s.len() && s[i] == #[trigger] f[a] by {
            if pred(s.last()) && a == f.len() - 1 {
                assert(s[s.len() - 1] == f[a]);
            } else {
                assert(f[a] == fp[a]);
                let i = choose|i: int| 0 <= i < s.drop_last().len() && s.drop_last()[i] == fp[a];
                assert(s[i] == f[a]);
            }
        }
        assert forall|a: int, b: int| 0 <= a < b < f.len() implies exists|i: int, j: int|
            0 <= i < j < s.len() && s[i] == #[trigger] f[a] && s[j] == #[trigger] f[b] by {
            if pred(s.last()) && b == f.len() - 1 {
                assert(f[a] == fp[a]);
                let i = choose|i: int| 0 <= i < s.drop_last().len() && s.drop_last()[i] == fp[a];
                assert(s[i] == f[a]);
                assert(s[s.len() - 1] == f[b]);
            } else {
                assert(f[a] == fp[a] && f[b] == fp[b]);
                let (i, j) = choose|i: int, j: int|
                    0 <= i < j < s.drop_last().len() && s.drop_last()[i] == fp[a]
                        && s.drop_last()[j] == #[trigger] fp[b];
                assert(s[i] == f[a] && s[j] == f[b]);
            }
        }
    }
}

/// Lexicographic order on character sequences, by code point.
pub open spec fn chars_le(a: Seq<char>, b: Seq<char>) -> bool
    decreases a.len(),
{
    if a.len() == 0 {
        true
    } else if b.len() == 0 {
        false
    } else if a[0] == b[0] {
        chars_le(a.skip(1), b.skip(1))
    } else {
        (a[0] as int) < (b[0] as int)
    }
}

/// Lexicographic comparison of two strings.
pub fn str_le(a: &str, b: &str) -> (r: bool)
    ensures
        r == chars_le(a@, b@),
{
    let alen = a.unicode_len();
    let blen = b.unicode_len();
    let min = if alen < blen {
        alen
    } else {
        blen
    };
    let mut i: usize = 0;
    proof {
        assert(a@.skip(0) =~= a@);
        assert(b@.skip(0) =~= b@);
    }
    while i < min
        invariant
            alen == a@.len(),
            blen == b@.len(),
            min == if alen < blen {
                alen
            } else {
                blen
            },
            0 <= i <= min,
            chars_le(a@, b@) == chars_le(a@.skip(i as int), b@.skip(i as int)),
        decreases min - i,
    {
        let ca = a.get_char(i);
        let cb = b.get_char(i);
        proof {
            assert(a@.skip(i as int)[0] == a@[i as int]);
            assert(b@.skip(i as int)[0] == b@[i as int]);
            assert(a@.skip(i as int).skip(1) =~= a@.skip(i + 1));
            assert(b@.skip(i as int).skip(1) =~= b@.skip(i + 1));
        }
        if ca as u32 != cb as u32 {
            proof {
                assert(ca != cb) by {
                    if ca == cb {
                        assert(ca as u32 == cb as u32);
                    }
                }
            }
            return (ca as u32) < (cb as u32);
        }
        assert(a@[i as int] == b@[i as int]);
        i = i + 1;
    }
    proof {
        if alen <= blen {
            assert(a@.skip(alen as int).len() == 0);
        } else {
            assert(b@.skip(blen as int).len() == 0);
            assert(a@.skip(blen as int).len() > 0);
        }
    }
    alen <= blen
}

/// Order on tag names: lexicographic on their characters.
pub open spec fn name_le(a: String, b: String) -> bool {
    chars_le(a@, b@)
}

/// Insertion into a name-sorted sequence.
pub open spec fn insert_name(s: Seq<String>, x: String) -> Seq<String>
    decreases s.len(),
{
    if s.len() == 0 {
        seq![x]
    } else if name_le(s.last(), x) {
        s.push(x)
    } else {
        insert_name(s.drop_last(), x).push(s.last())
    }
}

/// Insertion sort of tag names.
pub open spec fn sort_names(s: Seq<String>) -> Seq<String>
    decreases s.len(),
{
    if s.len() == 0 {
        Seq::empty()
    } else {
        insert_name(sort_names(s.drop_last()), s.last())
    }
}

/// Inserts one name into a sorted vector.
fn insert_name_exec(v: &mut Vec<String>, x: String)
    ensures
        final(v)@ == insert_name(old(v)@, x),
{
    let ghost s = v@;
    let mut j: usize = v.len();
    proof {
        assert(s.take(s.len() as int) =~= s);
        assert(s.skip(s.len() as int) =~= Seq::<String>::empty());
        assert(insert_name(s, x) + Seq::<String>::empty() =~= insert_name(s, x));
    }
    loop
        invariant
            0 <= j <= s.len(),
            v@ == s,
            insert_name(s, x) == insert_name(s.take(j as int), x) + s.skip(j as int),
        ensures
            0 <= j <= s.len(),
            v@ == s,
            insert_name(s, x) == insert_name(s.take(j as int), x) + s.skip(j as int),
            j == 0 || name_le(s[j - 1], x),
        decreases j,
    {
        if j == 0 {
            break ;
        }
        let below = str_le(v[j - 1].as_str(), x.as_str());
        if below {
            break ;
        }
        proof {
            let jj = j as int;
            assert(s.take(jj).last() == s[jj - 1]);
            assert(s.take(jj).drop_last() =~= s.take(jj - 1));
            assert(insert_name(s.take(jj), x) == insert_name(s.take(jj - 1), x).push(s[jj - 1]));
            assert(insert_name(s.take(jj - 1), x).push(s[jj - 1]) + s.skip(jj) =~= insert_name(
                s.take(jj - 1),
                x,
            ) + s.skip(jj - 1));
        }
        j = j - 1;
    }
    proof {
        let jj = j as int;
        if j == 0 {
            assert(s.take(0) =~= Seq::<String>::empty());
            assert(insert_name(s.take(0), x) =~= seq![x]);
        } else {
            assert(s.take(jj).last() == s[jj - 1]);
            assert(insert_name(s.take(jj), x) == s.take(jj).push(x));
        }
        assert(insert_name(s.take(jj), x) =~= s.take(jj).push(x));
        assert(s.take(jj).push(x) + s.skip(jj) =~= s.insert(jj, x));
    }
    v.insert(j, x);
}

/// Sorts tag names lexicographically.
pub fn sort_name_vec(names: Vec<String>) -> (r: Vec<String>)
    ensures
        r@ == sort_names(names@),
{
    let ghost nm = names@;
    let mut rest = names;
    let mut out: Vec<String> = Vec::new();
    proof {
        assert(rest@.skip(0) =~= nm);
    }
    while rest.len() > 0
        invariant
            out@ == sort_names(nm.take((nm.len() - rest@.len()) as int)),
            nm.skip((nm.len() - rest@.len()) as int) == rest@,
            rest@.len() <= nm.len(),
        decreases rest@.len(),
    {
        let ghost done = (nm.len() - rest@.len()) as int;
        let x = rest.remove(0);
        proof {
            assert(nm.take(done + 1).drop_last() =~= nm.take(done));
            assert(nm.skip(done)[0] == nm[done]);
            assert(nm.take(done + 1).last() == nm[done]);
            assert(x == nm[done]);
            assert(nm.skip(done).skip(1) =~= nm.skip(done + 1));
            assert(rest@ =~= nm.skip(done + 1));
        }
        insert_name_exec(&mut out, x);
    }
    proof {
        assert(nm.take(nm.len() as int) =~= nm);
    }
    out
}

} // verus!
