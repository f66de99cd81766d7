//! What holds of the scheduler on every graph: the laws of the two modes,
//! proved about the model that the graph's contracts are written in.

use crate::scheduler::model::{
    acyclic, add_edge, after_run, after_sequence, after_steps, ascending, assigned, comes_no_later,
    complete, complete_all, completion_time, has_ready_task, has_task, index_of, is_ready,
    is_topological_order, lemma_add_edge, lemma_complete_entries, lemma_complete_well_formed,
    lemma_first_ready_is_task, lemma_index_of, lemma_ready_ids_members, lemma_serve_weight, lemma_serve_well_formed, lemma_tick_weight, ready_ids, release, sequence,
    serve, serve_all, skip, task_of, task_with_edge, tick, total_cost, weight, well_formed, Task,
};
use vstd::prelude::*;

verus! {

/// A task that stays when another one completes is the same task, released.
pub proof fn lemma_complete_task_of(g: Seq<Task>, id: char, other: char)
    requires
        ascending(g),
        has_task(g, id),
        has_task(g, other),
        other != id,
    ensures
        has_task(complete(g, id), other),
        task_of(complete(g, id), other) == release(task_of(g, other), id),
        ascending(complete(g, id)),
{
    let h = complete(g, id);
    let k = index_of(g, id);
    lemma_complete_entries(g, id);
    assert(ascending(h)) by {
        assert forall|i: int, j: int| 0 <= i < j < h.len() implies #[trigger] h[i].id
            < #[trigger] h[j].id by {
            assert(g[skip(k, i)].id < g[skip(k, j)].id);
        }
    }
    let i0 = index_of(g, other);
    let i = if i0 < k { i0 } else { i0 - 1 };
    assert(skip(k, i) == i0);
    assert(h[i] == release(g[i0], id));
    lemma_index_of(h, other, i);
}

/// The ready list is strictly ascending where the graph is.
pub proof fn lemma_ready_ids_ascending(g: Seq<Task>)
    requires
        ascending(g),
    ensures
        forall|a: int, b: int|
            0 <= a < b < ready_ids(g).len() ==> #[trigger] ready_ids(g)[a] < #[trigger] ready_ids(
                g,
            )[b],
    decreases g.len(),
{
    if g.len() > 0 {
        let h = g.drop_last();
        let r = ready_ids(g);
        let rh = ready_ids(h);
        assert forall|i: int, j: int| 0 <= i < j < h.len() implies #[trigger] h[i].id
            < #[trigger] h[j].id by {
            assert(g[i].id < g[j].id);
        }
        lemma_ready_ids_ascending(h);
        lemma_ready_ids_members(h);
        assert forall|a: int, b: int| 0 <= a < b < r.len() implies #[trigger] r[a] < #[trigger] r[b] by {
            if b < rh.len() {
                assert(rh[a] < rh[b]);
            } else {
                assert(r[b] == g[g.len() - 1].id);
                assert(r[a] == rh[a]);
                assert(has_ready_task(h, rh[a]));
                let i = choose|i: int| 0 <= i < h.len() && #[trigger] h[i].id == rh[a] && is_ready(h[i]);
                assert(g[i].id < g[g.len() - 1].id);
            }
        }
    }
}

/// Taking the completed task out of a topological order gives one of the
/// graph that is left.
pub proof fn lemma_complete_keeps_order(g: Seq<Task>, id: char, order: Seq<char>)
    requires
        well_formed(g),
        has_task(g, id),
        is_topological_order(g, order),
    ensures
        is_topological_order(complete(g, id), order.remove(order.index_of(id))),
{
    let h = complete(g, id);
    let at = order.index_of(id);
    assert(order.contains(id));
    assert(0 <= at < order.len() && order[at] == id);
    let rest = order.remove(at);
    lemma_complete_well_formed(g, id);
    assert forall|i: int| 0 <= i < rest.len() implies #[trigger] rest[i] == order[skip(at, i)] by {}
    assert(rest.no_duplicates()) by {
        assert forall|i: int, j: int| 0 <= i < rest.len() && 0 <= j < rest.len() && i != j implies rest[i]
            != rest[j] by {
            assert(order[skip(at, i)] != order[skip(at, j)]);
        }
    }
    assert forall|x: char| rest.contains(x) <==> has_task(h, x) by {
        if rest.contains(x) {
            let i = choose|i: int| 0 <= i < rest.len() && rest[i] == x;
            assert(order[skip(at, i)] == x);
            assert(order.contains(x));
            assert(x != id);
        }
        if has_task(h, x) {
            assert(order.contains(x));
            let i0 = choose|i: int| 0 <= i < order.len() && order[i] == x;
            let i = if i0 < at { i0 } else { i0 - 1 };
            assert(skip(at, i) == i0);
            assert(rest[i] == x);
        }
    }
    assert forall|a: int, b: int|
        0 <= a < rest.len() && 0 <= b < rest.len() && task_of(h, #[trigger] rest[b]).parents.contains(
            #[trigger] rest[a],
        ) implies a < b by {
        let y = rest[b];
        assert(rest.contains(y));
        assert(has_task(h, y));
        lemma_complete_task_of(g, id, y);
        assert(task_of(g, order[skip(at, b)]).parents.contains(order[skip(at, a)]));
        assert(skip(at, a) < skip(at, b));
    }
}

/// A ready task put before a topological order of the rest gives one of the
/// whole graph.
pub proof fn lemma_prepend_order(g: Seq<Task>, id: char, rest: Seq<char>)
    requires
        well_formed(g),
        has_ready_task(g, id),
        is_topological_order(complete(g, id), rest),
    ensures
        is_topological_order(g, seq![id] + rest),
{
    let h = complete(g, id);
    let order = seq![id] + rest;
    let i0 = choose|i: int| 0 <= i < g.len() && #[trigger] g[i].id == id && is_ready(g[i]);
    lemma_index_of(g, id, i0);
    lemma_complete_well_formed(g, id);
    assert(!rest.contains(id));
    assert forall|i: int| 1 <= i < order.len() implies #[trigger] order[i] == rest[i - 1] by {}
    assert(order[0] == id);
    assert(order.no_duplicates()) by {
        assert forall|i: int, j: int| 0 <= i < order.len() && 0 <= j < order.len() && i != j implies order[i]
            != order[j] by {
            if i > 0 && j > 0 {
                assert(rest[i - 1] != rest[j - 1]);
            } else if i > 0 {
                assert(rest.contains(rest[i - 1]));
            } else {
                assert(rest.contains(rest[j - 1]));
            }
        }
    }
    assert forall|x: char| order.contains(x) <==> has_task(g, x) by {
        if order.contains(x) {
            let i = choose|i: int| 0 <= i < order.len() && order[i] == x;
            if i > 0 {
                assert(rest.contains(rest[i - 1]));
            }
        }
        if has_task(g, x) && x != id {
            assert(rest.contains(x));
            let i = choose|i: int| 0 <= i < rest.len() && rest[i] == x;
            assert(order[i + 1] == x);
        }
    }
    assert forall|a: int, b: int|
        0 <= a < order.len() && 0 <= b < order.len() && task_of(g, #[trigger] order[b]).parents.contains(
            #[trigger] order[a],
        ) implies a < b by {
        if b == 0 {
            assert(task_of(g, id) == g[i0]);
            assert(false);
        } else if a > 0 {
            let y = rest[b - 1];
            assert(rest.contains(y));
            assert(rest.contains(rest[a - 1]));
            lemma_complete_task_of(g, id, y);
            assert(task_of(h, rest[b - 1]).parents.contains(rest[a - 1]));
        }
    }
}

/// An acyclic graph that holds a task holds a ready one.
pub proof fn lemma_acyclic_has_ready(g: Seq<Task>)
    requires
        well_formed(g),
        acyclic(g),
        g.len() > 0,
    ensures
        ready_ids(g).len() > 0,
{
    let order = choose|order: Seq<char>| is_topological_order(g, order);
    assert(has_task(g, g[0].id));
    assert(order.contains(g[0].id));
    lemma_order_begins_with_ready(g, order);
    lemma_ready_ids_members(g);
}

/// Completing a task leaves an acyclic graph acyclic.
pub proof fn lemma_complete_acyclic(g: Seq<Task>, id: char)
    requires
        well_formed(g),
        acyclic(g),
    ensures
        acyclic(complete(g, id)),
{
    if has_task(g, id) {
        let order = choose|order: Seq<char>| is_topological_order(g, order);
        lemma_complete_keeps_order(g, id, order);
    }
}

/// Where `sequence` leaves no task behind, it is a topological order.
pub proof fn lemma_exhausting_sequence_is_order(g: Seq<Task>)
    requires
        well_formed(g),
        after_sequence(g).len() == 0,
    ensures
        is_topological_order(g, sequence(g)),
    decreases g.len(),
{
    let r = ready_ids(g);
    if r.len() == 0 {
        assert(g.len() == 0);
        assert forall|id: char| !has_task(g, id) by {}
        assert(sequence(g) =~= Seq::<char>::empty());
    } else {
        let id = r[0];
        lemma_first_ready_is_task(g);
        lemma_ready_ids_members(g);
        assert(has_ready_task(g, id));
        lemma_complete_well_formed(g, id);
        lemma_exhausting_sequence_is_order(complete(g, id));
        lemma_prepend_order(g, id, sequence(complete(g, id)));
    }
}

/// `sequence` leaves no task of an acyclic graph behind.
pub proof fn lemma_acyclic_sequence_exhausts(g: Seq<Task>)
    requires
        well_formed(g),
        acyclic(g),
    ensures
        after_sequence(g).len() == 0,
    decreases g.len(),
{
    let r = ready_ids(g);
    if r.len() == 0 {
        if g.len() > 0 {
            lemma_acyclic_has_ready(g);
        }
    } else {
        let id = r[0];
        lemma_first_ready_is_task(g);
        lemma_complete_well_formed(g, id);
        lemma_complete_acyclic(g, id);
        lemma_acyclic_sequence_exhausts(complete(g, id));
    }
}

/// On an acyclic graph the sequential mode visits every task exactly once,
/// each one after all of its parents, and leaves the graph empty.
pub proof fn lemma_sequence_is_topological_order(g: Seq<Task>)
    requires
        well_formed(g),
        acyclic(g),
    ensures
        is_topological_order(g, sequence(g)),
        sequence(g).len() == g.len(),
        after_sequence(g).len() == 0,
{
    lemma_acyclic_sequence_exhausts(g);
    lemma_exhausting_sequence_is_order(g);
    lemma_sequence_length(g);
}

/// The sequential mode leaves tasks behind exactly where the graph has a cycle.
pub proof fn lemma_sequence_exhausts_iff_acyclic(g: Seq<Task>)
    requires
        well_formed(g),
    ensures
        after_sequence(g).len() == 0 <==> acyclic(g),
{
    if after_sequence(g).len() == 0 {
        lemma_exhausting_sequence_is_order(g);
    }
    if acyclic(g) {
        lemma_acyclic_sequence_exhausts(g);
    }
}

/// Every task is either listed by `sequence` or left behind.
pub proof fn lemma_sequence_length(g: Seq<Task>)
    ensures
        sequence(g).len() + after_sequence(g).len() == g.len(),
    decreases g.len(),
{
    if ready_ids(g).len() > 0 {
        lemma_first_ready_is_task(g);
        lemma_sequence_length(complete(g, ready_ids(g)[0]));
    }
}

/// The tie-break: at every step the sequential mode picks a ready task, and
/// no task that is ready at that step has a smaller identifier.
pub proof fn lemma_sequence_picks_smallest(g: Seq<Task>, k: nat, other: char)
    requires
        well_formed(g),
        k < sequence(g).len(),
        has_ready_task(after_steps(g, k), other),
    ensures
        has_ready_task(after_steps(g, k), sequence(g)[k as int]),
        sequence(g)[k as int] <= other,
    decreases k,
{
    let r = ready_ids(g);
    assert(r.len() > 0);
    lemma_ready_ids_members(g);
    if k == 0 {
        lemma_ready_ids_ascending(g);
        assert(r.contains(other));
        let b = choose|b: int| 0 <= b < r.len() && r[b] == other;
        if b > 0 {
            assert(r[0] < r[b]);
        }
    } else {
        lemma_complete_well_formed(g, r[0]);
        lemma_sequence_picks_smallest(complete(g, r[0]), (k - 1) as nat, other);
    }
}

/// Once every task has been completed, in whatever order, the graph holds no
/// task and none is ready.
pub proof fn lemma_completing_every_task_empties(g: Seq<Task>, order: Seq<char>)
    requires
        well_formed(g),
        forall|id: char| has_task(g, id) ==> order.contains(id),
    ensures
        complete_all(g, order).len() == 0,
        ready_ids(complete_all(g, order)).len() == 0,
{
    let h = complete_all(g, order);
    lemma_complete_all_tasks(g, order);
    if h.len() > 0 {
        let x = h[0].id;
        assert(has_task(h, x));
        assert(has_task(g, x) && !order.contains(x));
    }
    lemma_ready_ids_members(h);
}

/// Completing a list of tasks keeps the graph well formed and takes out the
/// listed tasks, no others.
pub proof fn lemma_complete_all_tasks(g: Seq<Task>, ids: Seq<char>)
    requires
        well_formed(g),
    ensures
        well_formed(complete_all(g, ids)),
        forall|x: char| has_task(complete_all(g, ids), x) <==> has_task(g, x) && !ids.contains(x),
    decreases ids.len(),
{
    if ids.len() > 0 {
        let front = ids.drop_last();
        lemma_complete_all_tasks(g, front);
        lemma_complete_well_formed(complete_all(g, front), ids.last());
        assert forall|x: char| ids.contains(x) <==> front.contains(x) || x == ids.last() by {
            if ids.contains(x) {
                let i = choose|i: int| 0 <= i < ids.len() && ids[i] == x;
                if i < front.len() {
                    assert(front[i] == x);
                }
            }
            if front.contains(x) {
                let i = choose|i: int| 0 <= i < front.len() && front[i] == x;
                assert(ids[i] == x);
            }
            assert(ids[ids.len() - 1] == ids.last());
        }
    }
}

/// A tick of work that only lowers a cost leaves tasks and parents as they are.
proof fn lemma_serve_without_completion(g: Seq<Task>, id: char)
    requires
        well_formed(g),
        has_task(g, id),
        task_of(g, id).cost > 1,
    ensures
        forall|x: char| has_task(serve(g, id), x) <==> has_task(g, x),
        forall|x: char| has_task(g, x) ==> task_of(serve(g, id), x).parents == task_of(g, x).parents,
        forall|x: char| has_ready_task(g, x) ==> has_ready_task(serve(g, id), x),
{
    let h = serve(g, id);
    let k = index_of(g, id);
    lemma_serve_well_formed(g, id);
    assert forall|i: int| 0 <= i < h.len() implies (#[trigger] h[i]).id == g[i].id && h[i].parents
        == g[i].parents by {}
    assert forall|x: char| has_task(h, x) <==> has_task(g, x) by {
        if has_task(h, x) {
            assert(g[index_of(h, x)].id == x);
        }
        if has_task(g, x) {
            assert(h[index_of(g, x)].id == x);
        }
    }
    assert forall|x: char| has_task(g, x) implies task_of(h, x).parents == task_of(g, x).parents by {
        let i = index_of(g, x);
        assert(h[i].id == x);
        lemma_index_of(h, x, i);
    }
    assert forall|x: char| has_ready_task(g, x) implies has_ready_task(h, x) by {
        let i = choose|i: int| 0 <= i < g.len() && #[trigger] g[i].id == x && is_ready(g[i]);
        assert(h[i].id == x && is_ready(h[i]));
    }
}

/// One tick of work on a task leaves an acyclic graph acyclic.
pub proof fn lemma_serve_acyclic(g: Seq<Task>, id: char)
    requires
        well_formed(g),
        acyclic(g),
    ensures
        acyclic(serve(g, id)),
{
    if has_task(g, id) {
        if task_of(g, id).cost <= 1 {
            lemma_complete_acyclic(g, id);
        } else {
            let order = choose|order: Seq<char>| is_topological_order(g, order);
            lemma_serve_without_completion(g, id);
            let h = serve(g, id);
            assert forall|a: int, b: int|
                0 <= a < order.len() && 0 <= b < order.len() && task_of(
                    h,
                    #[trigger] order[b],
                ).parents.contains(#[trigger] order[a]) implies a < b by {
                assert(order.contains(order[b]));
                assert(task_of(g, order[b]).parents.contains(order[a]));
            }
            assert(is_topological_order(h, order));
        }
    }
}

/// Work on any list of tasks leaves an acyclic graph acyclic and well formed.
pub proof fn lemma_serve_all_acyclic(g: Seq<Task>, ids: Seq<char>)
    requires
        well_formed(g),
        acyclic(g),
    ensures
        well_formed(serve_all(g, ids)),
        acyclic(serve_all(g, ids)),
    decreases ids.len(),
{
    if ids.len() > 0 {
        lemma_serve_all_acyclic(g, ids.drop_last());
        lemma_serve_well_formed(serve_all(g, ids.drop_last()), ids.last());
        lemma_serve_acyclic(serve_all(g, ids.drop_last()), ids.last());
    }
}

/// With a worker or more, the worker pool leaves no task of an acyclic graph
/// behind.
pub proof fn lemma_acyclic_run_exhausts(g: Seq<Task>, workers: nat)
    requires
        well_formed(g),
        acyclic(g),
        workers > 0,
    ensures
        after_run(g, workers).len() == 0,
    decreases weight(g),
{
    if ready_ids(g).len() == 0 {
        if g.len() > 0 {
            lemma_acyclic_has_ready(g);
        }
    } else {
        lemma_tick_weight(g, workers);
        lemma_serve_all_acyclic(g, assigned(g, workers));
        lemma_acyclic_run_exhausts(tick(g, workers), workers);
    }
}

/// No run takes more ticks than there are ticks of work in the graph.
pub proof fn lemma_time_within_weight(g: Seq<Task>, workers: nat)
    ensures
        completion_time(g, workers) + weight(after_run(g, workers)) <= weight(g),
    decreases weight(g),
{
    if workers > 0 && ready_ids(g).len() > 0 {
        lemma_tick_weight(g, workers);
        lemma_time_within_weight(tick(g, workers), workers);
    }
}

/// A single worker is never idle: its ticks and the work that it leaves
/// behind make up the work in the graph.
pub proof fn lemma_single_worker_never_idle(g: Seq<Task>)
    ensures
        completion_time(g, 1) + weight(after_run(g, 1)) == weight(g),
    decreases weight(g),
{
    if ready_ids(g).len() > 0 {
        lemma_tick_weight(g, 1);
        lemma_single_worker_never_idle(tick(g, 1));
    }
}

/// The weight of a graph without tasks of cost zero is the sum of its costs.
pub proof fn lemma_weight_of_positive_costs(g: Seq<Task>)
    requires
        forall|i: int| 0 <= i < g.len() ==> (#[trigger] g[i]).cost > 0,
    ensures
        weight(g) == total_cost(g),
    decreases g.len(),
{
    if g.len() > 0 {
        let h = g.drop_last();
        assert forall|i: int| 0 <= i < h.len() implies (#[trigger] h[i]).cost > 0 by {
            assert(h[i] == g[i]);
        }
        assert(g.last() == g[g.len() - 1]);
        lemma_weight_of_positive_costs(h);
    }
}

/// A single worker needs one tick for each tick of work in an acyclic graph:
/// the sum of the costs, a task of cost zero counted as one tick.
pub proof fn lemma_single_worker_time(g: Seq<Task>)
    requires
        well_formed(g),
        acyclic(g),
    ensures
        completion_time(g, 1) == weight(g),
        (forall|i: int| 0 <= i < g.len() ==> (#[trigger] g[i]).cost > 0) ==> completion_time(g, 1)
            == total_cost(g),
{
    lemma_single_worker_never_idle(g);
    lemma_acyclic_run_exhausts(g, 1);
    assert(weight(after_run(g, 1)) == 0);
    if forall|i: int| 0 <= i < g.len() ==> (#[trigger] g[i]).cost > 0 {
        lemma_weight_of_positive_costs(g);
    }
}

/// More workers than one never take longer than one worker does.
pub proof fn lemma_workers_never_slower_than_one(g: Seq<Task>, workers: nat)
    requires
        well_formed(g),
        acyclic(g),
        workers > 0,
    ensures
        completion_time(g, workers) <= completion_time(g, 1),
{
    lemma_single_worker_time(g);
    lemma_time_within_weight(g, workers);
}

/// A ready task is still ready after a tick of work, unless that tick
/// completed it.
proof fn lemma_serve_keeps_ready(g: Seq<Task>, id: char, other: char)
    requires
        well_formed(g),
        has_ready_task(g, other),
    ensures
        !has_task(serve(g, id), other) || has_ready_task(serve(g, id), other),
{
    let h = serve(g, id);
    if has_task(g, id) {
        if task_of(g, id).cost <= 1 {
            lemma_complete_well_formed(g, id);
            if other != id {
                let i = choose|i: int| 0 <= i < g.len() && #[trigger] g[i].id == other && is_ready(g[i]);
                lemma_index_of(g, other, i);
                lemma_complete_task_of(g, id, other);
                let j = index_of(h, other);
                assert(h[j].id == other && is_ready(h[j]));
            }
        } else {
            lemma_serve_without_completion(g, id);
        }
    }
}

/// Where the graph is acyclic after a tick of work on a task that was ready
/// or absent, it was acyclic before.
proof fn lemma_serve_reflects_acyclic(g: Seq<Task>, id: char)
    requires
        well_formed(g),
        !has_task(g, id) || has_ready_task(g, id),
        acyclic(serve(g, id)),
    ensures
        acyclic(g),
{
    let h = serve(g, id);
    if has_task(g, id) {
        let order = choose|order: Seq<char>| is_topological_order(h, order);
        if task_of(g, id).cost <= 1 {
            lemma_prepend_order(g, id, order);
        } else {
            lemma_serve_without_completion(g, id);
            assert forall|a: int, b: int|
                0 <= a < order.len() && 0 <= b < order.len() && task_of(
                    g,
                    #[trigger] order[b],
                ).parents.contains(#[trigger] order[a]) implies a < b by {
                assert(order.contains(order[b]));
                assert(task_of(h, order[b]).parents.contains(order[a]));
            }
            assert(is_topological_order(g, order));
        }
    }
}

/// Where the graph is acyclic after work on tasks that were all ready, it
/// was acyclic before.
proof fn lemma_serve_all_reflects_acyclic(g: Seq<Task>, ids: Seq<char>)
    requires
        well_formed(g),
        forall|k: int| 0 <= k < ids.len() ==> has_ready_task(g, #[trigger] ids[k]),
        acyclic(serve_all(g, ids)),
    ensures
        acyclic(g),
        forall|x: char|
            has_ready_task(g, x) ==> !has_task(serve_all(g, ids), x) || has_ready_task(
                serve_all(g, ids),
                x,
            ),
    decreases ids.len(),
{
    if ids.len() > 0 {
        let front = ids.drop_last();
        let mid = serve_all(g, front);
        lemma_serve_all_ready(g, front);
        crate::scheduler::model::lemma_serve_all_well_formed(g, front);
        assert(has_ready_task(g, ids[ids.len() - 1]));
        lemma_serve_reflects_acyclic(mid, ids.last());
        assert forall|k: int| 0 <= k < front.len() implies has_ready_task(g, #[trigger] front[k]) by {
            assert(front[k] == ids[k]);
        }
        lemma_serve_all_reflects_acyclic(g, front);
        lemma_serve_all_ready(g, ids);
    }
}

/// A ready task is still ready after work on any tasks, unless that work
/// completed it.
proof fn lemma_serve_all_ready(g: Seq<Task>, ids: Seq<char>)
    requires
        well_formed(g),
    ensures
        forall|x: char|
            has_ready_task(g, x) ==> !has_task(serve_all(g, ids), x) || has_ready_task(
                serve_all(g, ids),
                x,
            ),
    decreases ids.len(),
{
    if ids.len() > 0 {
        let front = ids.drop_last();
        let mid = serve_all(g, front);
        lemma_serve_all_ready(g, front);
        crate::scheduler::model::lemma_serve_all_well_formed(g, front);
        lemma_serve_well_formed(mid, ids.last());
        assert forall|x: char| has_ready_task(g, x) implies !has_task(serve_all(g, ids), x)
            || has_ready_task(serve_all(g, ids), x) by {
            if has_task(mid, x) {
                lemma_serve_keeps_ready(mid, ids.last(), x);
            }
        }
    }
}

/// With a worker or more, the worker pool leaves tasks behind exactly where
/// the graph has a cycle.
pub proof fn lemma_run_exhausts_iff_acyclic(g: Seq<Task>, workers: nat)
    requires
        well_formed(g),
        workers > 0,
    ensures
        after_run(g, workers).len() == 0 <==> acyclic(g),
    decreases weight(g),
{
    if acyclic(g) {
        lemma_acyclic_run_exhausts(g, workers);
    }
    if after_run(g, workers).len() == 0 {
        if ready_ids(g).len() == 0 {
            assert(g.len() == 0);
            assert forall|id: char| !has_task(g, id) by {}
            assert(is_topological_order(g, Seq::<char>::empty()));
        } else {
            let ids = assigned(g, workers);
            lemma_tick_weight(g, workers);
            crate::scheduler::model::lemma_serve_all_well_formed(g, ids);
            lemma_run_exhausts_iff_acyclic(tick(g, workers), workers);
            lemma_ready_ids_members(g);
            assert forall|k: int| 0 <= k < ids.len() implies has_ready_task(g, #[trigger] ids[k]) by {
                assert(ids[k] == ready_ids(g)[k]);
            }
            lemma_serve_all_reflects_acyclic(g, ids);
        }
    }
}

/// The task that a topological order begins with is ready.
pub proof fn lemma_order_begins_with_ready(g: Seq<Task>, order: Seq<char>)
    requires
        well_formed(g),
        is_topological_order(g, order),
        order.len() > 0,
    ensures
        has_ready_task(g, order[0]),
{
    let first = order[0];
    assert(order.contains(first));
    let i = index_of(g, first);
    assert forall|p: char| !g[i].parents.contains(p) by {
        if g[i].parents.contains(p) {
            let j = choose|j: int|
                0 <= j < g.len() && #[trigger] g[j].id == p && g[j].children.count(g[i].id) > 0;
            assert(has_task(g, p));
            assert(order.contains(p));
            let a = choose|a: int| 0 <= a < order.len() && order[a] == p;
            assert(task_of(g, order[0]).parents.contains(order[a]));
        }
    }
    assert(is_ready(g[i]));
}

/// Of all the orders in which the tasks of a graph can be completed, the
/// sequential mode takes the one that comes first in the order of a
/// dictionary: wherever it has a choice, it takes the smallest task.
pub proof fn lemma_sequence_comes_first(g: Seq<Task>, order: Seq<char>)
    requires
        well_formed(g),
        is_topological_order(g, order),
    ensures
        comes_no_later(sequence(g), order),
    decreases g.len(),
{
    let r = ready_ids(g);
    if r.len() > 0 {
        let id = r[0];
        lemma_first_ready_is_task(g);
        assert(order.contains(id));
        lemma_order_begins_with_ready(g, order);
        lemma_ready_ids_members(g);
        lemma_ready_ids_ascending(g);
        assert(r.contains(order[0]));
        let b = choose|b: int| 0 <= b < r.len() && r[b] == order[0];
        if b > 0 {
            assert(r[0] < r[b]);
        } else {
            lemma_complete_well_formed(g, id);
            lemma_complete_keeps_order(g, id, order);
            let at = order.index_of(id);
            assert(order[at] == id);
            assert(at == 0);
            assert(order.remove(0) =~= order.drop_first());
            lemma_sequence_comes_first(complete(g, id), order.drop_first());
            assert((seq![id] + sequence(complete(g, id))).drop_first() =~= sequence(complete(g, id)));
        }
    }
}

/// With `workers` workers no tick does more than `workers` ticks of work:
/// the run takes at least its share of the work that it does.
pub proof fn lemma_time_at_least_share(g: Seq<Task>, workers: nat)
    ensures
        completion_time(g, workers) * workers + weight(after_run(g, workers)) >= weight(g),
    decreases weight(g),
{
    if workers > 0 && ready_ids(g).len() > 0 {
        lemma_tick_weight(g, workers);
        lemma_time_at_least_share(tick(g, workers), workers);
        let rest = completion_time(tick(g, workers), workers);
        assert((1 + rest) * workers == workers + rest * workers) by (nonlinear_arith);
    } else {
        assert(completion_time(g, workers) * workers == 0) by (nonlinear_arith)
            requires
                completion_time(g, workers) == 0,
        ;
    }
}

/// Children and parents mirror each other: where a task of the graph is a
/// child of another, that one is among its parents. With the invariant of
/// the graph, which says the converse, the two relations are one.
pub open spec fn mirrored(g: Seq<Task>) -> bool {
    forall|a: char, b: char|
        has_task(g, a) && has_task(g, b) && #[trigger] task_of(g, a).children.count(b) > 0
            ==> task_of(g, b).parents.contains(a)
}

/// No task has a child that is not in the graph.
pub open spec fn closed(g: Seq<Task>) -> bool {
    forall|a: char, b: char|
        has_task(g, a) && #[trigger] task_of(g, a).children.count(b) > 0 ==> has_task(g, b)
}

/// Registering an edge keeps children and parents mirrored, in a graph in
/// which no completed task is still named as a child: so in every graph
/// that is built from edges before the first task completes.
pub proof fn lemma_add_edge_mirrors(g: Seq<Task>, parent: char, child: char, offset: nat)
    requires
        well_formed(g),
        mirrored(g),
        closed(g),
    ensures
        mirrored(add_edge(g, parent, child, offset)),
        closed(add_edge(g, parent, child, offset)),
{
    let h = add_edge(g, parent, child, offset);
    lemma_add_edge(g, parent, child, offset);
    assert forall|a: char, b: char|
        has_task(h, a) && #[trigger] task_of(h, a).children.count(b) > 0 implies has_task(h, b) && (
        has_task(h, b) ==> task_of(h, b).parents.contains(a)) by {
        assert(task_of(h, a) == task_with_edge(g, parent, child, offset, a));
        if a == parent && b == child {
            assert(task_of(h, b) == task_with_edge(g, parent, child, offset, b));
        } else {
            // The child was registered before.
            assert(has_task(g, a));
            assert(task_of(g, a).children.count(b) > 0);
            assert(has_task(g, b));
            assert(task_of(g, b).parents.contains(a));
            assert(task_of(h, b) == task_with_edge(g, parent, child, offset, b));
        }
    }
}

/// Completing a task keeps children and parents mirrored.
pub proof fn lemma_complete_mirrors(g: Seq<Task>, id: char)
    requires
        well_formed(g),
        mirrored(g),
    ensures
        mirrored(complete(g, id)),
{
    let h = complete(g, id);
    if has_task(g, id) {
        lemma_complete_well_formed(g, id);
        assert forall|a: char, b: char|
            has_task(h, a) && has_task(h, b) && #[trigger] task_of(h, a).children.count(b)
                > 0 implies task_of(h, b).parents.contains(a) by {
            lemma_complete_task_of(g, id, a);
            lemma_complete_task_of(g, id, b);
            assert(task_of(g, a).children.count(b) > 0);
        }
    }
}

/// A graph without tasks has children and parents mirrored, and names no
/// child that it lacks.
pub proof fn lemma_empty_graph_mirrors()
    ensures
        well_formed(Seq::<Task>::empty()),
        mirrored(Seq::<Task>::empty()),
        closed(Seq::<Task>::empty()),
{
}

/// In one tick no more tasks get work than there are workers, and each of
/// them is ready.
pub proof fn lemma_assigned_within_pool(g: Seq<Task>, workers: nat)
    ensures
        assigned(g, workers).len() <= workers,
        assigned(g, workers).len() <= ready_ids(g).len(),
        forall|k: int|
            0 <= k < assigned(g, workers).len() ==> has_ready_task(g, #[trigger] assigned(g, workers)[k]),
{
    lemma_ready_ids_members(g);
    assert forall|k: int| 0 <= k < assigned(g, workers).len() implies has_ready_task(
        g,
        #[trigger] assigned(g, workers)[k],
    ) by {
        assert(assigned(g, workers)[k] == ready_ids(g)[k]);
    }
}

/// Work takes tasks out of the graph and puts none in.
pub proof fn lemma_serve_all_shrinks(g: Seq<Task>, ids: Seq<char>)
    ensures
        serve_all(g, ids).len() <= g.len(),
    decreases ids.len(),
{
    if ids.len() > 0 {
        lemma_serve_all_shrinks(g, ids.drop_last());
        lemma_serve_weight(serve_all(g, ids.drop_last()), ids.last());
    }
}

/// With a worker for every task, more workers change nothing: the run takes
/// as long as with one worker for each task.
pub proof fn lemma_enough_workers(g: Seq<Task>, workers: nat)
    requires
        workers >= g.len(),
    ensures
        completion_time(g, workers) == completion_time(g, g.len()),
        after_run(g, workers) == after_run(g, g.len()),
    decreases weight(g),
{
    lemma_ready_ids_members(g);
    if ready_ids(g).len() > 0 {
        assert(assigned(g, workers) =~= assigned(g, g.len()));
        let next = tick(g, workers);
        lemma_tick_weight(g, workers);
        lemma_serve_all_shrinks(g, assigned(g, workers));
        lemma_enough_workers(next, workers);
        lemma_enough_workers(next, g.len());
    }
}

} // verus!
