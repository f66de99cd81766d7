//! What a tick of the worker pool does to each task, and what follows for a
//! pool that has a worker for every task.

use crate::scheduler::laws::{
    lemma_acyclic_has_ready, lemma_complete_task_of, lemma_enough_workers,
    lemma_ready_ids_ascending, lemma_serve_all_acyclic, lemma_serve_all_shrinks,
    lemma_workers_never_slower_than_one,
};
use crate::scheduler::model::{
    acyclic, assigned, complete, completion_time, has_ready_task, has_task, index_of, is_ready,
    lemma_complete_well_formed, lemma_index_of, lemma_ready_ids_members,
    lemma_serve_all_well_formed, lemma_serve_well_formed, lemma_tick_weight, ready_ids, release,
    serve, serve_all, task_of, tick, weight, well_formed, Task,
};
use vstd::prelude::*;

verus! {

/// The task `id` completes in a tick in which the listed tasks get work: it
/// is one of them, and one tick of work or none is left of it.
pub open spec fn completes(g: Seq<Task>, ids: Seq<char>, id: char) -> bool {
    ids.contains(id) && has_task(g, id) && task_of(g, id).cost <= 1
}

/// The tasks that complete in a tick in which the listed tasks get work.
pub open spec fn completed(g: Seq<Task>, ids: Seq<char>) -> Set<char> {
    Set::new(|id: char| completes(g, ids, id))
}

/// The task `id` after a tick in which the listed tasks get work: one tick
/// of work less is left of it where it is one of them, and it waits no
/// longer for the tasks that completed.
pub open spec fn worked(g: Seq<Task>, ids: Seq<char>, id: char) -> Task {
    let before = task_of(g, id);
    Task {
        id: before.id,
        parents: before.parents.difference(completed(g, ids)),
        children: before.children,
        cost: if ids.contains(id) {
            (before.cost - 1) as nat
        } else {
            before.cost
        },
    }
}

/// One tick of work on a task of the graph, task by task: the task served
/// is gone where one tick or none was left of it, and has one tick less
/// else; every other task stays, and waits no longer for a task that is
/// gone.
pub proof fn lemma_serve_tasks(g: Seq<Task>, id: char)
    requires
        well_formed(g),
        has_task(g, id),
    ensures
        well_formed(serve(g, id)),
        forall|y: char|
            has_task(serve(g, id), y) <==> has_task(g, y) && !(y == id && task_of(g, id).cost <= 1),
        forall|y: char|
            has_task(serve(g, id), y) && y != id ==> task_of(serve(g, id), y) == if task_of(
                g,
                id,
            ).cost <= 1 {
                release(task_of(g, y), id)
            } else {
                task_of(g, y)
            },
        task_of(g, id).cost > 1 ==> task_of(serve(g, id), id) == (Task {
            cost: (task_of(g, id).cost - 1) as nat,
            ..task_of(g, id)
        }),
{
    let h = serve(g, id);
    let k = index_of(g, id);
    lemma_serve_well_formed(g, id);
    if g[k].cost <= 1 {
        lemma_complete_well_formed(g, id);
        assert forall|y: char| has_task(h, y) && y != id implies task_of(h, y) == release(
            task_of(g, y),
            id,
        ) by {
            lemma_complete_task_of(g, id, y);
        }
    } else {
        assert forall|i: int| 0 <= i < h.len() implies (#[trigger] h[i]).id == g[i].id by {}
        assert forall|y: char| has_task(h, y) <==> has_task(g, y) by {
            if has_task(h, y) {
                assert(g[index_of(h, y)].id == y);
            }
            if has_task(g, y) {
                assert(h[index_of(g, y)].id == y);
            }
        }
        assert forall|y: char| has_task(h, y) implies task_of(h, y) == h[index_of(g, y)] by {
            let i = index_of(g, y);
            assert(h[i].id == y);
            lemma_index_of(h, y, i);
        }
    }
}

/// One tick of work on each of several ready tasks, task by task: each
/// task is as `worked` says, and the tasks that completed are gone.
pub proof fn lemma_work_on_ready_tasks(g: Seq<Task>, ids: Seq<char>)
    requires
        well_formed(g),
        ids.no_duplicates(),
        forall|k: int| 0 <= k < ids.len() ==> has_ready_task(g, #[trigger] ids[k]),
    ensures
        well_formed(serve_all(g, ids)),
        forall|y: char| has_task(serve_all(g, ids), y) <==> has_task(g, y) && !completes(g, ids, y),
        forall|y: char|
            has_task(serve_all(g, ids), y) ==> task_of(serve_all(g, ids), y) == worked(g, ids, y),
    decreases ids.len(),
{
    let h = serve_all(g, ids);
    if ids.len() == 0 {
        assert forall|y: char| has_task(g, y) implies task_of(g, y) == worked(g, ids, y) by {
            assert(task_of(g, y).parents.difference(completed(g, ids)) =~= task_of(g, y).parents);
            assert(task_of(g, y).id == y);
        }
    } else {
        let front = ids.drop_last();
        let last = ids.last();
        let mid = serve_all(g, front);
        assert forall|k: int| 0 <= k < front.len() implies has_ready_task(g, #[trigger] front[k]) by {
            assert(front[k] == ids[k]);
        }
        assert(front.no_duplicates());
        lemma_work_on_ready_tasks(g, front);
        assert(ids[ids.len() - 1] == last);
        assert(has_ready_task(g, last));
        assert(!front.contains(last)) by {
            if front.contains(last) {
                let i = choose|i: int| 0 <= i < front.len() && front[i] == last;
                assert(ids[i] == ids[ids.len() - 1]);
            }
        }
        assert forall|y: char| ids.contains(y) <==> front.contains(y) || y == last by {
            if ids.contains(y) {
                let i = choose|i: int| 0 <= i < ids.len() && ids[i] == y;
                if i < front.len() {
                    assert(front[i] == y);
                }
            }
            if front.contains(y) {
                let i = choose|i: int| 0 <= i < front.len() && front[i] == y;
                assert(ids[i] == y);
            }
        }
        let at = choose|i: int| 0 <= i < g.len() && #[trigger] g[i].id == last && is_ready(g[i]);
        lemma_index_of(g, last, at);
        assert(task_of(g, last).parents =~= Set::<char>::empty());
        assert(has_task(mid, last));
        assert(task_of(mid, last) == worked(g, front, last));
        assert(task_of(mid, last).cost == task_of(g, last).cost);
        lemma_serve_tasks(mid, last);
        let gone = task_of(g, last).cost <= 1;
        assert forall|y: char| completes(g, ids, y) <==> completes(g, front, y) || (y == last
            && gone) by {}
        assert forall|y: char| has_task(h, y) implies task_of(h, y) == worked(g, ids, y) by {
            let before = task_of(g, y);
            assert(has_task(mid, y));
            assert(task_of(mid, y) == worked(g, front, y));
            if gone {
                assert(y != last);
                assert(task_of(h, y) == release(task_of(mid, y), last));
                assert(before.parents.difference(completed(g, front)).remove(last)
                    =~= before.parents.difference(completed(g, ids)));
            } else {
                assert(completed(g, front) =~= completed(g, ids));
                if y == last {
                    assert(task_of(h, y).parents =~= worked(g, ids, y).parents);
                }
            }
        }
    }
}

/// The first graph is ahead of the second: each of its tasks is a task of
/// the second, with no more work left and waiting for no other tasks.
pub open spec fn ahead(h: Seq<Task>, g: Seq<Task>) -> bool {
    forall|y: char| #[trigger]
        has_task(h, y) ==> has_task(g, y) && task_of(h, y).cost <= task_of(g, y).cost && task_of(
            h,
            y,
        ).parents.subset_of(task_of(g, y).parents)
}

/// The tasks that get work in a tick are ready, and none is listed twice.
pub proof fn lemma_assigned_tasks(g: Seq<Task>, workers: nat)
    requires
        well_formed(g),
    ensures
        assigned(g, workers).no_duplicates(),
        forall|k: int|
            0 <= k < assigned(g, workers).len() ==> has_ready_task(g, #[trigger] assigned(g, workers)[k]),
        workers >= g.len() ==> assigned(g, workers) == ready_ids(g),
{
    let ids = assigned(g, workers);
    let r = ready_ids(g);
    lemma_ready_ids_members(g);
    lemma_ready_ids_ascending(g);
    assert forall|k: int| 0 <= k < ids.len() implies has_ready_task(g, #[trigger] ids[k]) by {
        assert(ids[k] == r[k]);
    }
    assert forall|i: int, j: int| 0 <= i < ids.len() && 0 <= j < ids.len() && i != j implies ids[i]
        != ids[j] by {
        assert(ids[i] == r[i] && ids[j] == r[j]);
        if i < j {
            assert(r[i] < r[j]);
        } else {
            assert(r[j] < r[i]);
        }
    }
}

/// A ready task has no parent.
proof fn lemma_ready_task(g: Seq<Task>, id: char)
    requires
        well_formed(g),
        has_ready_task(g, id),
    ensures
        has_task(g, id),
        task_of(g, id).parents =~= Set::<char>::empty(),
{
    let at = choose|i: int| 0 <= i < g.len() && #[trigger] g[i].id == id && is_ready(g[i]);
    lemma_index_of(g, id, at);
}

/// A graph that is ahead stays ahead through a tick in which each of its
/// ready tasks gets work, whatever the workers of the other graph do.
pub proof fn lemma_tick_keeps_ahead(h: Seq<Task>, g: Seq<Task>, all: nat, workers: nat)
    requires
        well_formed(h),
        well_formed(g),
        ahead(h, g),
        all >= h.len(),
    ensures
        ahead(tick(h, all), tick(g, workers)),
{
    let busy_h = assigned(h, all);
    let busy_g = assigned(g, workers);
    lemma_assigned_tasks(h, all);
    lemma_assigned_tasks(g, workers);
    lemma_work_on_ready_tasks(h, busy_h);
    lemma_work_on_ready_tasks(g, busy_g);
    lemma_ready_ids_members(h);
    let next_h = tick(h, all);
    let next_g = tick(g, workers);
    // A task that completes behind has completed ahead, or is no task there.
    assert forall|p: char| has_task(h, p) && completes(g, busy_g, p) implies completes(
        h,
        busy_h,
        p,
    ) by {
        let k = choose|k: int| 0 <= k < busy_g.len() && busy_g[k] == p;
        assert(has_ready_task(g, busy_g[k]));
        lemma_ready_task(g, p);
        assert(has_task(h, p));
        assert(task_of(h, p).parents =~= Set::<char>::empty());
        assert(h[index_of(h, p)].id == p && is_ready(h[index_of(h, p)]));
        assert(has_ready_task(h, p));
        assert(busy_h.contains(p));
    }
    assert forall|y: char| #[trigger] has_task(next_h, y) implies has_task(next_g, y) && task_of(
        next_h,
        y,
    ).cost <= task_of(next_g, y).cost && task_of(next_h, y).parents.subset_of(
        task_of(next_g, y).parents,
    ) by {
        assert(has_task(h, y) && !completes(h, busy_h, y));
        assert(has_task(g, y));
        assert(!completes(g, busy_g, y));
        assert(has_task(next_g, y));
        assert(task_of(next_h, y) == worked(h, busy_h, y));
        assert(task_of(next_g, y) == worked(g, busy_g, y));
        if busy_g.contains(y) {
            let k = choose|k: int| 0 <= k < busy_g.len() && busy_g[k] == y;
            assert(has_ready_task(g, busy_g[k]));
            lemma_ready_task(g, y);
            assert(task_of(h, y).parents =~= Set::<char>::empty());
            assert(h[index_of(h, y)].id == y && is_ready(h[index_of(h, y)]));
            assert(has_ready_task(h, y));
            assert(busy_h.contains(y));
            assert(task_of(h, y).cost > 1);
        }
        assert forall|p: char| task_of(next_h, y).parents.contains(p) implies task_of(
            next_g,
            y,
        ).parents.contains(p) by {
            assert(task_of(h, y).parents.contains(p));
            assert(task_of(g, y).parents.contains(p));
            let i = index_of(h, y);
            assert(h[i].parents.contains(p));
            let j = choose|j: int|
                0 <= j < h.len() && #[trigger] h[j].id == p && h[j].children.count(h[i].id) > 0;
            assert(has_task(h, p));
            assert(!completes(h, busy_h, p));
            assert(!completes(g, busy_g, p));
        }
    }
}

/// A graph that is ahead of an acyclic one, with a worker for each of its
/// tasks, is done no later.
pub proof fn lemma_ahead_finishes_first(h: Seq<Task>, g: Seq<Task>, all: nat, workers: nat)
    requires
        well_formed(h),
        well_formed(g),
        acyclic(g),
        ahead(h, g),
        all >= h.len(),
        workers > 0,
    ensures
        completion_time(h, all) <= completion_time(g, workers),
    decreases weight(g),
{
    if ready_ids(g).len() == 0 {
        if g.len() > 0 {
            lemma_acyclic_has_ready(g);
        }
        if h.len() > 0 {
            assert(has_task(h, h[0].id));
            assert(has_task(g, h[0].id));
        }
        lemma_ready_ids_members(h);
    } else if all > 0 && ready_ids(h).len() > 0 {
        lemma_tick_weight(g, workers);
        lemma_tick_keeps_ahead(h, g, all, workers);
        lemma_serve_all_well_formed(h, assigned(h, all));
        lemma_serve_all_acyclic(g, assigned(g, workers));
        lemma_serve_all_shrinks(h, assigned(h, all));
        lemma_ahead_finishes_first(tick(h, all), tick(g, workers), all, workers);
    }
}

/// No pool is faster than the one that has a worker for every task: with
/// any number of workers an acyclic graph takes at least as long.
pub proof fn lemma_worker_for_every_task_is_fastest(g: Seq<Task>, workers: nat)
    requires
        well_formed(g),
        acyclic(g),
        workers > 0,
    ensures
        completion_time(g, g.len()) <= completion_time(g, workers),
{
    assert(ahead(g, g));
    lemma_ahead_finishes_first(g, g, g.len(), workers);
}

/// More workers are never slower than fewer where the fewer are one
/// worker, or the more are a worker for every task. Between two pools that
/// are neither, the larger one can be the slower: a worker more can take up
/// a task that, once done, sets free tasks which then keep the workers from
/// the task that the run has to wait for in the end.
pub proof fn lemma_more_workers_never_slower_at_the_ends(g: Seq<Task>, fewer: nat, more: nat)
    requires
        well_formed(g),
        acyclic(g),
        1 <= fewer <= more,
        fewer == 1 || more >= g.len(),
    ensures
        completion_time(g, more) <= completion_time(g, fewer),
{
    if fewer == 1 {
        lemma_workers_never_slower_than_one(g, more);
    } else {
        lemma_enough_workers(g, more);
        lemma_worker_for_every_task_is_fastest(g, fewer);
    }
}

} // verus!
