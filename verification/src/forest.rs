//! The task forest as a parent-pointer graph: ancestor chains, groundedness
//! (every chain ends), and the acyclicity that follows from it.
use vstd::prelude::*;

use crate::domain::Task;

verus! {

/// Some task in `s` carries id `id`.
pub open spec fn has_task(s: Seq<Task>, id: u64) -> bool {
    exists|i: int| 0 <= i < s.len() && s[i].id == id
}

/// Index of the task with id `id` (meaningful when ids are unique).
pub open spec fn idx_of(s: Seq<Task>, id: u64) -> int {
    choose|i: int| 0 <= i < s.len() && s[i].id == id
}

/// The task with id `id` (meaningful when present and ids are unique).
pub open spec fn task_of(s: Seq<Task>, id: u64) -> Task {
    s[idx_of(s, id)]
}

/// No two tasks share an id.
pub open spec fn unique_ids(s: Seq<Task>) -> bool {
    forall|i: int, j: int| 0 <= i < j < s.len() ==> s[i].id != s[j].id
}

/// Every task's parent pointer names an existing task.
pub open spec fn parents_exist(s: Seq<Task>) -> bool {
    forall|i: int|
        0 <= i < s.len() ==> match #[trigger] s[i].parent_id {
            Option::Some(p) => has_task(s, p),
            Option::None => true,
        }
}

/// One step up the parent chain: the parent of `id`, or `None` at a root or
/// at an id that names no task.
pub open spec fn parent_step(s: Seq<Task>, id: u64) -> Option<u64> {
    if has_task(s, id) {
        task_of(s, id).parent_id
    } else {
        Option::None
    }
}

/// The id reached from `id` after `n` parent steps, or `None` once the chain
/// has ended.
pub open spec fn chain(s: Seq<Task>, id: u64, n: nat) -> Option<u64>
    decreases n,
{
    if n == 0 {
        Option::Some(id)
    } else {
        match chain(s, id, (n - 1) as nat) {
            Option::Some(y) => parent_step(s, y),
            Option::None => Option::None,
        }
    }
}

/// The parent chain from `id` ends after finitely many steps.
pub open spec fn grounded_at(s: Seq<Task>, id: u64) -> bool {
    exists|n: nat| #[trigger] chain(s, id, n) is None
}

/// Every parent chain ends: the graph has no cycle reachable from anywhere.
pub open spec fn grounded(s: Seq<Task>) -> bool {
    forall|id: u64| #[trigger] grounded_at(s, id)
}

/// `t` lies (strictly or not) on the parent chain of `x`.
pub open spec fn on_chain(s: Seq<Task>, x: u64, t: u64) -> bool {
    exists|n: nat| #[trigger] chain(s, x, n) == Option::<u64>::Some(t)
}

/// With unique ids, the index holding `id` is the one `idx_of` picks.
pub proof fn lemma_idx_unique(s: Seq<Task>, id: u64, i: int)
    requires
        unique_ids(s),
        0 <= i < s.len(),
        s[i].id == id,
    ensures
        idx_of(s, id) == i,
        task_of(s, id) == s[i],
        has_task(s, id),
{
    assert(has_task(s, id));
    let j = idx_of(s, id);
    assert(0 <= j < s.len() && s[j].id == id);
    if i < j {
        assert(s[i].id != s[j].id);
    } else if j < i {
        assert(s[j].id != s[i].id);
    }
}

/// Splitting a chain: `a + b` steps is `b` steps from wherever `a` steps end.
pub proof fn lemma_chain_add(s: Seq<Task>, id: u64, a: nat, b: nat)
    ensures
        chain(s, id, a + b) == match chain(s, id, a) {
            Option::Some(y) => chain(s, y, b),
            Option::None => Option::<u64>::None,
        },
    decreases b,
{
    if b == 0 {
        match chain(s, id, a) {
            Option::Some(y) => {
                assert(chain(s, y, 0) == Option::<u64>::Some(y));
            },
            Option::None => {},
        }
    } else {
        lemma_chain_add(s, id, a, (b - 1) as nat);
        assert(a + b == (a + (b - 1) as nat) + 1);
        match chain(s, id, a) {
            Option::Some(y) => {
                assert(chain(s, id, a + b) == match chain(s, id, (a + b - 1) as nat) {
                    Option::Some(z) => parent_step(s, z),
                    Option::None => Option::<u64>::None,
                });
            },
            Option::None => {},
        }
    }
}

/// Once a chain has ended it stays ended.
pub proof fn lemma_chain_none_mono(s: Seq<Task>, id: u64, n: nat, m: nat)
    requires
        chain(s, id, n) is None,
        n <= m,
    ensures
        chain(s, id, m) is None,
{
    lemma_chain_add(s, id, n, (m - n) as nat);
}

/// A cycle of length `n` repeats at every multiple of `n`.
proof fn lemma_cycle_repeats(s: Seq<Task>, id: u64, n: nat, k: nat)
    requires
        chain(s, id, n) == Option::<u64>::Some(id),
        n >= 1,
    ensures
        chain(s, id, k * n) == Option::<u64>::Some(id),
    decreases k,
{
    if k == 0 {
        assert(chain(s, id, 0) == Option::<u64>::Some(id));
    } else {
        lemma_cycle_repeats(s, id, n, (k - 1) as nat);
        lemma_chain_add(s, id, ((k - 1) as nat) * n, n);
        assert(k * n == ((k - 1) as nat) * n + n) by (nonlinear_arith)
            requires k >= 1;
    }
}

/// A grounded node is on no cycle.
pub proof fn lemma_grounded_no_cycle(s: Seq<Task>, id: u64, n: nat)
    requires
        grounded_at(s, id),
        n >= 1,
    ensures
        chain(s, id, n) != Option::<u64>::Some(id),
{
    if chain(s, id, n) == Option::<u64>::Some(id) {
        let m = choose|m: nat| chain(s, id, m) is None;
        lemma_cycle_repeats(s, id, n, m);
        assert(m * n >= m) by (nonlinear_arith)
            requires n >= 1;
        lemma_chain_none_mono(s, id, m, m * n);
    }
}

/// No task is its own ancestor: the parent graph of a grounded store is an
/// acyclic forest.
pub proof fn lemma_forest_acyclic(s: Seq<Task>)
    requires
        grounded(s),
    ensures
        forall|id: u64, n: nat| n >= 1 ==> #[trigger] chain(s, id, n) != Option::<u64>::Some(id),
{
    assert forall|id: u64, n: nat| n >= 1 implies #[trigger] chain(s, id, n)
        != Option::<u64>::Some(id) by {
        assert(grounded_at(s, id));
        lemma_grounded_no_cycle(s, id, n);
    }
}

/// Any id reached by at least one parent step names an existing task, as long
/// as parents exist.
pub proof fn lemma_chain_hits_tasks(s: Seq<Task>, id: u64, n: nat)
    requires
        parents_exist(s),
        n >= 1,
        chain(s, id, n) is Some,
    ensures
        has_task(s, chain(s, id, n)->Some_0),
{
    let prev = chain(s, id, (n - 1) as nat);
    assert(prev is Some);
    let z = prev->Some_0;
    assert(chain(s, id, n) == parent_step(s, z));
    assert(has_task(s, z));
    let zi = idx_of(s, z);
    assert(0 <= zi < s.len() && s[zi].id == z);
    assert(task_of(s, z) == s[zi]);
}

/// Chains agree on two graphs whose parent steps agree everywhere, except
/// possibly at `t`, as long as the chain never reaches `t`.
pub proof fn lemma_chain_agree(s1: Seq<Task>, s2: Seq<Task>, t: u64, x: u64, n: nat)
    requires
        forall|y: u64| y != t ==> parent_step(s1, y) == parent_step(s2, y),
        forall|i: nat| i < n ==> #[trigger] chain(s1, x, i) != Option::<u64>::Some(t),
    ensures
        chain(s2, x, n) == chain(s1, x, n),
    decreases n,
{
    if n > 0 {
        lemma_chain_agree(s1, s2, t, x, (n - 1) as nat);
        match chain(s1, x, (n - 1) as nat) {
            Option::Some(y) => {
                assert(chain(s1, x, (n - 1) as nat) != Option::<u64>::Some(t));
                assert(y != t);
            },
            Option::None => {},
        }
    }
}

/// Chains are identical on two graphs whose parent steps agree everywhere.
pub proof fn lemma_chain_same(s1: Seq<Task>, s2: Seq<Task>, x: u64, n: nat)
    requires
        forall|y: u64| #[trigger] parent_step(s1, y) == parent_step(s2, y),
    ensures
        chain(s2, x, n) == chain(s1, x, n),
    decreases n,
{
    if n > 0 {
        lemma_chain_same(s1, s2, x, (n - 1) as nat);
    }
}

/// A table whose rows keep their ids and parent pointers (statuses, titles or
/// archival marks may change) has the same parent graph: same lookups, same
/// chains, and it stays grounded.
pub proof fn lemma_graph_unchanged(s1: Seq<Task>, s2: Seq<Task>)
    requires
        s2.len() == s1.len(),
        forall|i: int|
            0 <= i < s1.len() ==> (#[trigger] s2[i]).id == s1[i].id && s2[i].parent_id
                == s1[i].parent_id,
        unique_ids(s1),
        parents_exist(s1),
        grounded(s1),
    ensures
        unique_ids(s2),
        parents_exist(s2),
        grounded(s2),
        forall|y: u64| #[trigger] has_task(s2, y) == has_task(s1, y),
        forall|y: u64| has_task(s1, y) ==> #[trigger] idx_of(s2, y) == idx_of(s1, y),
        forall|y: u64| #[trigger] parent_step(s2, y) == parent_step(s1, y),
{
    assert forall|y: u64| #[trigger] has_task(s2, y) == has_task(s1, y) by {
        if has_task(s1, y) {
            let i = idx_of(s1, y);
            assert(s2[i].id == y);
        }
        if has_task(s2, y) {
            let i = choose|i: int| 0 <= i < s2.len() && s2[i].id == y;
            assert(s1[i].id == y);
        }
    }
    assert forall|y: u64| has_task(s1, y) implies #[trigger] idx_of(s2, y) == idx_of(s1, y) by {
        let i = idx_of(s1, y);
        assert(0 <= i < s1.len() && s1[i].id == y);
        assert(s2[i].id == y);
        lemma_idx_unique(s2, y, i);
    }
    assert forall|y: u64| #[trigger] parent_step(s2, y) == parent_step(s1, y) by {
        if has_task(s1, y) {
            let i = idx_of(s1, y);
            assert(idx_of(s2, y) == i);
        }
    }
    assert forall|i: int|
        0 <= i < s2.len() ==> match #[trigger] s2[i].parent_id {
            Option::Some(p) => has_task(s2, p),
            Option::None => true,
        } by {};
    assert forall|id: u64| #[trigger] grounded_at(s2, id) by {
        assert(grounded_at(s1, id));
        let n = choose|n: nat| chain(s1, id, n) is None;
        lemma_chain_same(s1, s2, id, n);
    }
}

/// Appending one task with a fresh id and an existing parent keeps the graph
/// well formed and grounded, and leaves every other lookup alone.
pub proof fn lemma_push_leaf(s1: Seq<Task>, s2: Seq<Task>, t: Task)
    requires
        s2 == s1.push(t),
        unique_ids(s1),
        parents_exist(s1),
        grounded(s1),
        !has_task(s1, t.id),
        match t.parent_id {
            Option::Some(p) => has_task(s1, p),
            Option::None => true,
        },
    ensures
        unique_ids(s2),
        parents_exist(s2),
        grounded(s2),
        forall|y: u64| y != t.id ==> #[trigger] has_task(s2, y) == has_task(s1, y),
        forall|y: u64|
            has_task(s1, y) ==> #[trigger] idx_of(s2, y) == idx_of(s1, y) && task_of(s2, y)
                == task_of(s1, y),
        has_task(s2, t.id),
        task_of(s2, t.id) == t,
{
    assert forall|i: int, j: int| 0 <= i < j < s2.len() implies s2[i].id != s2[j].id by {
        if j == s2.len() - 1 {
            assert(s2[i] == s1[i]);
            if s1[i].id == t.id {
                assert(has_task(s1, t.id));
            }
        }
    }
    lemma_idx_unique(s2, t.id, s1.len() as int);
    assert forall|y: u64| has_task(s1, y) implies #[trigger] idx_of(s2, y) == idx_of(s1, y)
        && task_of(s2, y) == task_of(s1, y) by {
        let i = idx_of(s1, y);
        assert(0 <= i < s1.len() && s1[i].id == y);
        assert(s2[i].id == y);
        lemma_idx_unique(s2, y, i);
    }
    assert forall|y: u64| y != t.id implies #[trigger] has_task(s2, y) == has_task(s1, y) by {
        if has_task(s2, y) {
            let i = choose|i: int| 0 <= i < s2.len() && s2[i].id == y;
            assert(i < s1.len());
            assert(s1[i].id == y);
        }
        if has_task(s1, y) {
            let i = idx_of(s1, y);
            assert(s2[i].id == y);
        }
    }
    assert(parents_exist(s2)) by {
        assert forall|i: int|
            0 <= i < s2.len() ==> match #[trigger] s2[i].parent_id {
                Option::Some(p) => has_task(s2, p),
                Option::None => true,
            } by {
            assert forall|i: int|
                0 <= i < s2.len() implies match #[trigger] s2[i].parent_id {
                Option::Some(p) => has_task(s2, p),
                Option::None => true,
            } by {
                if i < s1.len() {
                    match s1[i].parent_id {
                        Option::Some(p) => {
                            assert(has_task(s1, p));
                            let k = idx_of(s1, p);
                            assert(s2[k].id == p);
                        },
                        Option::None => {},
                    }
                } else {
                    match t.parent_id {
                        Option::Some(p) => {
                            let k = idx_of(s1, p);
                            assert(s2[k].id == p);
                        },
                        Option::None => {},
                    }
                }
            }
        }
    }
    assert forall|y: u64| y != t.id implies #[trigger] parent_step(s2, y) == parent_step(s1, y) by {
        if has_task(s1, y) {
            assert(idx_of(s2, y) == idx_of(s1, y));
        }
    }
    assert forall|id: u64| #[trigger] grounded_at(s2, id) by {
        if id == t.id {
            match t.parent_id {
                Option::None => {
                    assert(chain(s2, id, 0) == Option::<u64>::Some(id));
                    assert(parent_step(s2, id) == Option::<u64>::None);
                    assert(chain(s2, id, 1) is None);
                },
                Option::Some(p) => {
                    assert(grounded_at(s1, p));
                    let n = choose|n: nat| chain(s1, p, n) is None;
                    assert forall|i: nat| i < n implies #[trigger] chain(s1, p, i)
                        != Option::<u64>::Some(t.id) by {
                        if i == 0 {
                            assert(has_task(s1, p));
                        } else if chain(s1, p, i) is Some {
                            lemma_chain_hits_tasks(s1, p, i);
                        }
                    }
                    lemma_chain_agree(s1, s2, t.id, p, n);
                    assert(chain(s2, p, n) is None);
                    assert(chain(s2, id, 0) == Option::<u64>::Some(id));
                    assert(chain(s2, id, 1) == parent_step(s2, id));
                    assert(parent_step(s2, id) == Option::<u64>::Some(p));
                    lemma_chain_add(s2, id, 1, n);
                    assert(chain(s2, id, 1 + n) is None);
                },
            }
        } else {
            assert(grounded_at(s1, id));
            let n = choose|n: nat| chain(s1, id, n) is None;
            assert forall|i: nat| i < n implies #[trigger] chain(s1, id, i)
                != Option::<u64>::Some(t.id) by {
                if i == 0 {
                } else if chain(s1, id, i) is Some {
                    lemma_chain_hits_tasks(s1, id, i);
                }
            }
            lemma_chain_agree(s1, s2, t.id, id, n);
        }
    }
}

/// Removing tasks (keeping the survivors' records) keeps every chain grounded.
pub proof fn lemma_chain_restrict(s1: Seq<Task>, s2: Seq<Task>, x: u64, n: nat)
    requires
        forall|id: u64| #[trigger] has_task(s2, id) ==> has_task(s1, id) && task_of(s2, id)
            == task_of(s1, id),
        chain(s1, x, n) is None,
    ensures
        chain(s2, x, n) is None,
{
    lemma_chain_restrict_rec(s1, s2, x, n);
}

proof fn lemma_chain_restrict_rec(s1: Seq<Task>, s2: Seq<Task>, x: u64, n: nat)
    requires
        forall|id: u64| #[trigger] has_task(s2, id) ==> has_task(s1, id) && task_of(s2, id)
            == task_of(s1, id),
    ensures
        chain(s2, x, n) is None || chain(s2, x, n) == chain(s1, x, n),
    decreases n,
{
    if n > 0 {
        lemma_chain_restrict_rec(s1, s2, x, (n - 1) as nat);
        match chain(s2, x, (n - 1) as nat) {
            Option::Some(y) => {
                assert(chain(s2, x, (n - 1) as nat) == chain(s1, x, (n - 1) as nat));
                if has_task(s2, y) {
                    assert(parent_step(s2, y) == parent_step(s1, y));
                }
            },
            Option::None => {},
        }
    }
}

} // verus!
