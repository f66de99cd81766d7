//! The mathematical model of the dependency graph and of the two scheduling
//! modes. Everything here is specification: the executable graph is described
//! by these functions, and the laws of the scheduler are proved about them.

use vstd::prelude::*;
use vstd::multiset::Multiset;

verus! {

/// A task as the scheduler sees it.
pub struct Task {
    /// The identifier; identifiers are ordered by their scalar value.
    pub id: char,
    /// The tasks that must complete before this one may start.
    pub parents: Set<char>,
    /// The tasks registered as depending on this one, a duplicate edge counted twice.
    pub children: Multiset<char>,
    /// The number of ticks of work left.
    pub cost: nat,
}

/// The positional weight of a letter: 1 for `a` or `A` up to 26 for `z` or `Z`,
/// and 0 for every other character.
pub open spec fn letter_value(c: char) -> nat {
    if 'a' <= c && c <= 'z' {
        (c as u32 - 'a' as u32 + 1) as nat
    } else if 'A' <= c && c <= 'Z' {
        (c as u32 - 'A' as u32 + 1) as nat
    } else {
        0
    }
}

/// The task `id` is present in the graph.
pub open spec fn has_task(g: Seq<Task>, id: char) -> bool {
    exists|i: int| 0 <= i < g.len() && #[trigger] g[i].id == id
}

/// The position of the task `id`, where it is present.
pub open spec fn index_of(g: Seq<Task>, id: char) -> int {
    choose|i: int| 0 <= i < g.len() && #[trigger] g[i].id == id
}

/// The tasks stand in strictly ascending order of identifier.
pub open spec fn ascending(g: Seq<Task>) -> bool {
    forall|i: int, j: int| 0 <= i < j < g.len() ==> #[trigger] g[i].id < #[trigger] g[j].id
}

/// The invariant of the graph: one task per identifier, in ascending order, and
/// every parent that a task lists is itself in the graph and lists the task
/// among its children.
pub open spec fn well_formed(g: Seq<Task>) -> bool {
    &&& ascending(g)
    &&& forall|i: int| 0 <= i < g.len() ==> (#[trigger] g[i]).parents.finite()
    &&& forall|i: int, p: char|
        0 <= i < g.len() && #[trigger] g[i].parents.contains(p) ==> exists|j: int|
            0 <= j < g.len() && #[trigger] g[j].id == p && g[j].children.count(g[i].id) > 0
}

/// A task is ready when no parent is left.
pub open spec fn is_ready(t: Task) -> bool {
    t.parents =~= Set::<char>::empty()
}

/// The identifiers of the ready tasks, in the order of the graph.
pub open spec fn ready_ids(g: Seq<Task>) -> Seq<char>
    decreases g.len(),
{
    if g.len() == 0 {
        Seq::empty()
    } else if is_ready(g.last()) {
        ready_ids(g.drop_last()).push(g.last().id)
    } else {
        ready_ids(g.drop_last())
    }
}

/// The task with `id` struck from its parents.
pub open spec fn release(t: Task, id: char) -> Task {
    Task { parents: t.parents.remove(id), ..t }
}

/// The graph after the task `id` completed: the task is gone, and no remaining
/// task lists it as a parent. A graph without the task is left as it is.
pub open spec fn complete(g: Seq<Task>, id: char) -> Seq<Task> {
    if has_task(g, id) {
        g.remove(index_of(g, id)).map_values(|t: Task| release(t, id))
    } else {
        g
    }
}

/// The task `id` of the graph.
pub open spec fn task_of(g: Seq<Task>, id: char) -> Task {
    g[index_of(g, id)]
}

/// `order` lists every task of the graph once, and each task behind all of
/// its parents.
pub open spec fn is_topological_order(g: Seq<Task>, order: Seq<char>) -> bool {
    &&& order.no_duplicates()
    &&& forall|id: char| order.contains(id) <==> has_task(g, id)
    &&& forall|a: int, b: int|
        0 <= a < order.len() && 0 <= b < order.len() && task_of(g, #[trigger] order[b]).parents.contains(
            #[trigger] order[a],
        ) ==> a < b
}

/// The graph is acyclic: its tasks can be listed so that each one stands
/// behind all of its parents.
pub open spec fn acyclic(g: Seq<Task>) -> bool {
    exists|order: Seq<char>| is_topological_order(g, order)
}

/// The first list comes no later than the second in the order of a
/// dictionary: where the two part ways, the first has the smaller entry,
/// and where they never do, the first is no longer.
pub open spec fn comes_no_later(first: Seq<char>, second: Seq<char>) -> bool
    decreases first.len(),
{
    if first.len() == 0 {
        true
    } else if second.len() == 0 {
        false
    } else if first[0] != second[0] {
        first[0] < second[0]
    } else {
        comes_no_later(first.drop_first(), second.drop_first())
    }
}

/// `k` is where a task `id` that the graph lacks has to stand.
pub open spec fn is_slot(g: Seq<Task>, id: char, k: int) -> bool {
    &&& 0 <= k <= g.len()
    &&& forall|i: int| 0 <= i < k ==> (#[trigger] g[i]).id < id
    &&& forall|i: int| k <= i < g.len() ==> id < (#[trigger] g[i]).id
}

/// A task without parents and children.
pub open spec fn fresh_task(id: char, cost: nat) -> Task {
    Task { id, parents: Set::empty(), children: Multiset::empty(), cost }
}

/// The graph with a task `id`: as it is where the task exists, else with a
/// fresh task of the given cost at its place in the order.
pub open spec fn with_task(g: Seq<Task>, id: char, cost: nat) -> Seq<Task> {
    if has_task(g, id) {
        g
    } else {
        g.insert(choose|k: int| is_slot(g, id, k), fresh_task(id, cost))
    }
}

/// The graph with `child` entered once more among the children of `id`.
pub open spec fn with_child(g: Seq<Task>, id: char, child: char) -> Seq<Task> {
    let k = index_of(g, id);
    g.update(k, Task { children: g[k].children.insert(child), ..g[k] })
}

/// The graph with `parent` in the parent set of `id`.
pub open spec fn with_parent(g: Seq<Task>, id: char, parent: char) -> Seq<Task> {
    let k = index_of(g, id);
    g.update(k, Task { parents: g[k].parents.insert(parent), ..g[k] })
}

/// The graph after registering that `child` must not start before `parent`
/// has completed. A task that is new gets the cost `offset` plus the letter
/// value of its identifier.
pub open spec fn add_edge(g: Seq<Task>, parent: char, child: char, offset: nat) -> Seq<Task> {
    let g1 = with_task(g, parent, offset + letter_value(parent));
    let g2 = with_child(g1, parent, child);
    let g3 = with_task(g2, child, offset + letter_value(child));
    with_parent(g3, child, parent)
}

/// The edge from `parent` to `child` is registered in the graph.
pub open spec fn has_edge(g: Seq<Task>, parent: char, child: char) -> bool {
    has_task(g, parent) && g[index_of(g, parent)].children.count(child) > 0
}

/// The order in which a single worker that needs no time completes the tasks:
/// always the smallest ready identifier next, until no task is ready.
pub open spec fn sequence(g: Seq<Task>) -> Seq<char>
    decreases g.len(),
    via sequence_terminates
{
    let r = ready_ids(g);
    if r.len() == 0 {
        Seq::empty()
    } else {
        seq![r[0]] + sequence(complete(g, r[0]))
    }
}

/// What is left of the graph when `sequence` stops.
pub open spec fn after_sequence(g: Seq<Task>) -> Seq<Task>
    decreases g.len(),
    via after_sequence_terminates
{
    let r = ready_ids(g);
    if r.len() == 0 {
        g
    } else {
        after_sequence(complete(g, r[0]))
    }
}

/// The graph after the first `k` steps of `sequence`.
pub open spec fn after_steps(g: Seq<Task>, k: nat) -> Seq<Task>
    decreases k,
{
    let r = ready_ids(g);
    if k == 0 || r.len() == 0 {
        g
    } else {
        after_steps(complete(g, r[0]), (k - 1) as nat)
    }
}

/// The graph after completing the listed tasks one after the other.
pub open spec fn complete_all(g: Seq<Task>, ids: Seq<char>) -> Seq<Task>
    decreases ids.len(),
{
    if ids.len() == 0 {
        g
    } else {
        complete(complete_all(g, ids.drop_last()), ids.last())
    }
}

/// The ticks for which a task occupies a worker: its cost, and one tick where
/// the cost is zero.
pub open spec fn ticks_of(t: Task) -> nat {
    if t.cost == 0 {
        1
    } else {
        t.cost
    }
}

/// The ticks of work in the graph.
pub open spec fn weight(g: Seq<Task>) -> nat
    decreases g.len(),
{
    if g.len() == 0 {
        0
    } else {
        weight(g.drop_last()) + ticks_of(g.last())
    }
}

/// The sum of the costs in the graph.
pub open spec fn total_cost(g: Seq<Task>) -> nat
    decreases g.len(),
{
    if g.len() == 0 {
        0
    } else {
        total_cost(g.drop_last()) + g.last().cost
    }
}

/// One tick of work on the task `id`: its cost goes down by one, and the task
/// completes where one tick or none was left.
pub open spec fn serve(g: Seq<Task>, id: char) -> Seq<Task> {
    if !has_task(g, id) {
        g
    } else {
        let k = index_of(g, id);
        if g[k].cost <= 1 {
            complete(g, id)
        } else {
            g.update(k, Task { cost: (g[k].cost - 1) as nat, ..g[k] })
        }
    }
}

/// One tick of work on each of the listed tasks, in their order.
pub open spec fn serve_all(g: Seq<Task>, ids: Seq<char>) -> Seq<Task>
    decreases ids.len(),
{
    if ids.len() == 0 {
        g
    } else {
        serve(serve_all(g, ids.drop_last()), ids.last())
    }
}

/// The tasks that `workers` workers take up in one tick: the ready tasks with
/// the smallest identifiers, as many as there are workers.
pub open spec fn assigned(g: Seq<Task>, workers: nat) -> Seq<char> {
    let r = ready_ids(g);
    if workers < r.len() {
        r.take(workers as int)
    } else {
        r
    }
}

/// The graph after one tick with `workers` workers.
pub open spec fn tick(g: Seq<Task>, workers: nat) -> Seq<Task> {
    serve_all(g, assigned(g, workers))
}

/// The ticks that pass until no task is ready, with `workers` workers.
pub open spec fn completion_time(g: Seq<Task>, workers: nat) -> nat
    decreases weight(g),
    via completion_time_terminates
{
    if workers == 0 || ready_ids(g).len() == 0 {
        0
    } else {
        1 + completion_time(tick(g, workers), workers)
    }
}

/// What is left of the graph when no task is ready any more.
pub open spec fn after_run(g: Seq<Task>, workers: nat) -> Seq<Task>
    decreases weight(g),
    via after_run_terminates
{
    if workers == 0 || ready_ids(g).len() == 0 {
        g
    } else {
        after_run(tick(g, workers), workers)
    }
}

/// The graph holds a ready task `id`.
pub open spec fn has_ready_task(g: Seq<Task>, id: char) -> bool {
    exists|i: int| 0 <= i < g.len() && #[trigger] g[i].id == id && is_ready(g[i])
}

/// Each entry of `ready_ids` is the identifier of a ready task, each ready
/// task is listed, and the list is no longer than the graph.
pub proof fn lemma_ready_ids_members(g: Seq<Task>)
    ensures
        ready_ids(g).len() <= g.len(),
        forall|k: int| 0 <= k < ready_ids(g).len() ==> has_ready_task(g, #[trigger] ready_ids(g)[k]),
        forall|id: char| has_ready_task(g, id) ==> ready_ids(g).contains(id),
    decreases g.len(),
{
    if g.len() > 0 {
        let h = g.drop_last();
        lemma_ready_ids_members(h);
        let r = ready_ids(g);
        let rh = ready_ids(h);
        assert forall|k: int| 0 <= k < r.len() implies has_ready_task(g, #[trigger] r[k]) by {
            if k < rh.len() {
                assert(r[k] == rh[k]);
                assert(has_ready_task(h, rh[k]));
                let i = choose|i: int| 0 <= i < h.len() && #[trigger] h[i].id == rh[k] && is_ready(h[i]);
                assert(g[i] == h[i]);
            } else {
                assert(g[g.len() - 1].id == r[k]);
            }
        }
        assert forall|id: char| has_ready_task(g, id) implies r.contains(id) by {
            let i = choose|i: int| 0 <= i < g.len() && #[trigger] g[i].id == id && is_ready(g[i]);
            if i < h.len() {
                assert(h[i] == g[i]);
                assert(has_ready_task(h, id));
                let k = choose|k: int| 0 <= k < rh.len() && rh[k] == id;
                assert(r[k] == id);
            } else {
                assert(r[r.len() - 1] == id);
            }
        }
    }
}

/// The first ready identifier is a task of the graph.
pub proof fn lemma_first_ready_is_task(g: Seq<Task>)
    requires
        ready_ids(g).len() > 0,
    ensures
        has_task(g, ready_ids(g)[0]),
        is_ready(g[index_of(g, ready_ids(g)[0])]) || !ascending(g),
        complete(g, ready_ids(g)[0]).len() == g.len() - 1,
{
    lemma_ready_ids_members(g);
    let id = ready_ids(g)[0];
    assert(has_ready_task(g, id));
    let i = choose|i: int| 0 <= i < g.len() && #[trigger] g[i].id == id && is_ready(g[i]);
    assert(g[i].id == id);
    let k = index_of(g, id);
    if ascending(g) {
        if k < i {
            assert(g[k].id < g[i].id);
        }
        if i < k {
            assert(g[i].id < g[k].id);
        }
    }
}

#[via_fn]
proof fn sequence_terminates(g: Seq<Task>) {
    if ready_ids(g).len() > 0 {
        lemma_first_ready_is_task(g);
    }
}

#[via_fn]
proof fn after_sequence_terminates(g: Seq<Task>) {
    if ready_ids(g).len() > 0 {
        lemma_first_ready_is_task(g);
    }
}

/// The weight and the total cost of a graph depend on the costs alone.
pub proof fn lemma_weight_by_costs(g: Seq<Task>, h: Seq<Task>)
    requires
        g.len() == h.len(),
        forall|i: int| 0 <= i < g.len() ==> (#[trigger] g[i]).cost == (#[trigger] h[i]).cost,
    ensures
        weight(g) == weight(h),
        total_cost(g) == total_cost(h),
    decreases g.len(),
{
    if g.len() > 0 {
        assert(g.last().cost == g[g.len() - 1].cost);
        assert(h.last().cost == h[g.len() - 1].cost);
        assert forall|i: int| 0 <= i < g.drop_last().len() implies (#[trigger] g.drop_last()[i]).cost
            == (#[trigger] h.drop_last()[i]).cost by {
            assert(g.drop_last()[i] == g[i]);
            assert(h.drop_last()[i] == h[i]);
        }
        lemma_weight_by_costs(g.drop_last(), h.drop_last());
    }
}

/// Taking a task out lowers the weight by the ticks of that task.
pub proof fn lemma_weight_remove(g: Seq<Task>, k: int)
    requires
        0 <= k < g.len(),
    ensures
        weight(g.remove(k)) == weight(g) - ticks_of(g[k]),
        total_cost(g.remove(k)) == total_cost(g) - g[k].cost,
    decreases g.len(),
{
    if k == g.len() - 1 {
        assert(g.remove(k) =~= g.drop_last());
    } else {
        assert(g.remove(k).drop_last() =~= g.drop_last().remove(k));
        assert(g.remove(k).last() == g.last());
        lemma_weight_remove(g.drop_last(), k);
    }
}

/// Replacing a task changes the weight by the difference of the ticks.
pub proof fn lemma_weight_update(g: Seq<Task>, k: int, t: Task)
    requires
        0 <= k < g.len(),
    ensures
        weight(g.update(k, t)) == weight(g) - ticks_of(g[k]) + ticks_of(t),
    decreases g.len(),
{
    if k == g.len() - 1 {
        assert(g.update(k, t).drop_last() =~= g.drop_last());
    } else {
        assert(g.update(k, t).drop_last() =~= g.drop_last().update(k, t));
        assert(g.update(k, t).last() == g.last());
        lemma_weight_update(g.drop_last(), k, t);
    }
}

/// Completing a task of the graph takes one task out, with all its ticks.
pub proof fn lemma_complete_weight(g: Seq<Task>, id: char)
    requires
        has_task(g, id),
    ensures
        complete(g, id).len() == g.len() - 1,
        weight(complete(g, id)) == weight(g) - ticks_of(g[index_of(g, id)]),
{
    let k = index_of(g, id);
    let h = g.remove(k);
    lemma_weight_remove(g, k);
    lemma_weight_by_costs(h, h.map_values(|t: Task| release(t, id)));
}

/// One tick of work on a task of the graph lowers the weight by one.
pub proof fn lemma_serve_weight(g: Seq<Task>, id: char)
    ensures
        has_task(g, id) ==> weight(serve(g, id)) == weight(g) - 1,
        !has_task(g, id) ==> serve(g, id) == g,
        serve(g, id).len() <= g.len(),
{
    if has_task(g, id) {
        let k = index_of(g, id);
        if g[k].cost <= 1 {
            lemma_complete_weight(g, id);
        } else {
            lemma_weight_update(g, k, Task { cost: (g[k].cost - 1) as nat, ..g[k] });
        }
    }
}

/// Work never adds weight, and takes some away where the first task served
/// is in the graph.
pub proof fn lemma_serve_all_weight(g: Seq<Task>, ids: Seq<char>)
    ensures
        weight(serve_all(g, ids)) <= weight(g),
        ids.len() > 0 && has_task(g, ids[0]) ==> weight(serve_all(g, ids)) < weight(g),
        weight(serve_all(g, ids)) + ids.len() >= weight(g),
    decreases ids.len(),
{
    if ids.len() > 0 {
        let front = ids.drop_last();
        lemma_serve_all_weight(g, front);
        lemma_serve_weight(serve_all(g, front), ids.last());
        if front.len() > 0 {
            assert(front[0] == ids[0]);
        } else {
            assert(ids.last() == ids[0]);
        }
    }
}

/// A tick with at least one worker and a ready task lowers the weight.
pub proof fn lemma_tick_weight(g: Seq<Task>, workers: nat)
    requires
        workers > 0,
        ready_ids(g).len() > 0,
    ensures
        weight(tick(g, workers)) < weight(g),
        weight(tick(g, workers)) + workers >= weight(g),
{
    lemma_first_ready_is_task(g);
    let ids = assigned(g, workers);
    assert(ids[0] == ready_ids(g)[0]);
    lemma_serve_all_weight(g, ids);
}

#[via_fn]
proof fn completion_time_terminates(g: Seq<Task>, workers: nat) {
    if workers > 0 && ready_ids(g).len() > 0 {
        lemma_tick_weight(g, workers);
    }
}

#[via_fn]
proof fn after_run_terminates(g: Seq<Task>, workers: nat) {
    if workers > 0 && ready_ids(g).len() > 0 {
        lemma_tick_weight(g, workers);
    }
}

/// In an ascending graph an identifier stands at one position only.
pub proof fn lemma_index_of(g: Seq<Task>, id: char, k: int)
    requires
        ascending(g),
        0 <= k < g.len(),
        g[k].id == id,
    ensures
        has_task(g, id),
        index_of(g, id) == k,
{
    let i = index_of(g, id);
    if i < k {
        assert(g[i].id < g[k].id);
    }
    if k < i {
        assert(g[k].id < g[i].id);
    }
}

/// In an ascending graph a missing identifier has one slot only.
pub proof fn lemma_slot(g: Seq<Task>, id: char, k: int)
    requires
        is_slot(g, id, k),
    ensures
        !has_task(g, id),
        (choose|j: int| is_slot(g, id, j)) == k,
{
    let j = choose|j: int| is_slot(g, id, j);
    if j < k {
        assert(g[j].id < id);
    }
    if k < j {
        assert(g[k].id < id);
    }
    if has_task(g, id) {
        let i = index_of(g, id);
        if i < k {
            assert(g[i].id < id);
        } else {
            assert(id < g[i].id);
        }
    }
}

/// The position in `g` of what stands at `i` once position `k` is taken out.
pub open spec fn skip(k: int, i: int) -> int {
    if i < k {
        i
    } else {
        i + 1
    }
}

/// Completing a task of the graph: each task left is an old one, released.
pub proof fn lemma_complete_entries(g: Seq<Task>, id: char)
    requires
        has_task(g, id),
    ensures
        complete(g, id).len() == g.len() - 1,
        forall|i: int|
            0 <= i < g.len() - 1 ==> #[trigger] complete(g, id)[i] == release(
                g[skip(index_of(g, id), i)],
                id,
            ),
{
}

proof fn lemma_complete_ascending(g: Seq<Task>, id: char)
    requires
        ascending(g),
    ensures
        ascending(complete(g, id)),
{
    let h = complete(g, id);
    if has_task(g, id) {
        let k = index_of(g, id);
        lemma_complete_entries(g, id);
        assert forall|i: int, j: int| 0 <= i < j < h.len() implies #[trigger] h[i].id
            < #[trigger] h[j].id by {
            assert(g[skip(k, i)].id < g[skip(k, j)].id);
        }
    }
}

proof fn lemma_complete_tasks(g: Seq<Task>, id: char)
    requires
        ascending(g),
    ensures
        forall|x: char| has_task(complete(g, id), x) <==> has_task(g, x) && x != id,
{
    let h = complete(g, id);
    if has_task(g, id) {
        let k = index_of(g, id);
        lemma_complete_entries(g, id);
        assert forall|x: char| has_task(h, x) <==> has_task(g, x) && x != id by {
            if has_task(h, x) {
                let i = index_of(h, x);
                assert(h[i].id == x);
                let i0 = skip(k, i);
                assert(g[i0].id == x);
                if x == id {
                    lemma_index_of(g, id, i0);
                }
            }
            if has_task(g, x) && x != id {
                let i0 = index_of(g, x);
                let i = if i0 < k { i0 } else { i0 - 1 };
                assert(skip(k, i) == i0);
                assert(h[i].id == x);
            }
        }
    }
}

proof fn lemma_complete_parents(g: Seq<Task>, id: char)
    requires
        well_formed(g),
    ensures
        forall|i: int, p: char|
            0 <= i < complete(g, id).len() && #[trigger] complete(g, id)[i].parents.contains(p)
                ==> exists|j: int|
                0 <= j < complete(g, id).len() && #[trigger] complete(g, id)[j].id == p && complete(
                    g,
                    id,
                )[j].children.count(complete(g, id)[i].id) > 0,
{
    let h = complete(g, id);
    if has_task(g, id) {
        let k = index_of(g, id);
        lemma_complete_entries(g, id);
        assert forall|i: int, p: char| 0 <= i < h.len() && #[trigger] h[i].parents.contains(
            p,
        ) implies exists|j: int|
            0 <= j < h.len() && #[trigger] h[j].id == p && h[j].children.count(h[i].id) > 0 by {
            let i0 = skip(k, i);
            assert(h[i] == release(g[i0], id));
            assert(g[i0].parents.contains(p));
            let j0 = choose|j: int|
                0 <= j < g.len() && #[trigger] g[j].id == p && g[j].children.count(g[i0].id) > 0;
            assert(j0 != k);
            let j = if j0 < k { j0 } else { j0 - 1 };
            assert(skip(k, j) == j0);
            assert(h[j] == release(g[j0], id));
            assert(h[j].id == p);
            assert(h[i].id == g[i0].id);
            assert(h[j].children.count(h[i].id) > 0);
        }
    }
}

/// Completing a task keeps the graph well formed; the other tasks stay.
pub proof fn lemma_complete_well_formed(g: Seq<Task>, id: char)
    requires
        well_formed(g),
    ensures
        well_formed(complete(g, id)),
        forall|x: char| has_task(complete(g, id), x) <==> has_task(g, x) && x != id,
{
    let h = complete(g, id);
    lemma_complete_ascending(g, id);
    lemma_complete_tasks(g, id);
    lemma_complete_parents(g, id);
    if has_task(g, id) {
        lemma_complete_entries(g, id);
        assert forall|i: int| 0 <= i < h.len() implies (#[trigger] h[i]).parents.finite() by {
            assert(g[skip(index_of(g, id), i)].parents.finite());
        }
    }
}

/// An ascending graph has a slot for each identifier that it lacks.
pub proof fn lemma_slot_exists(g: Seq<Task>, id: char)
    requires
        ascending(g),
        !has_task(g, id),
    ensures
        exists|k: int| is_slot(g, id, k),
    decreases g.len(),
{
    if g.len() == 0 {
        assert(is_slot(g, id, 0));
    } else {
        let n = g.len() - 1;
        assert(g[n].id != id);
        if g[n].id < id {
            assert forall|i: int| 0 <= i < g.len() implies (#[trigger] g[i]).id < id by {
                if i < n {
                    assert(g[i].id < g[n].id);
                }
            }
            assert(is_slot(g, id, g.len() as int));
        } else {
            let h = g.drop_last();
            assert forall|i: int, j: int| 0 <= i < j < h.len() implies #[trigger] h[i].id
                < #[trigger] h[j].id by {
                assert(g[i].id < g[j].id);
            }
            if has_task(h, id) {
                assert(g[index_of(h, id)].id == id);
            }
            lemma_slot_exists(h, id);
            let k = choose|k: int| is_slot(h, id, k);
            assert forall|i: int| 0 <= i < k implies (#[trigger] g[i]).id < id by {
                assert(h[i].id < id);
            }
            assert forall|i: int| k <= i < g.len() implies id < (#[trigger] g[i]).id by {
                if i < n {
                    assert(id < h[i].id);
                }
            }
            assert(is_slot(g, id, k));
        }
    }
}

/// Entering a task keeps the graph well formed, and adds that task alone.
pub proof fn lemma_with_task(g: Seq<Task>, id: char, cost: nat)
    requires
        well_formed(g),
    ensures
        well_formed(with_task(g, id, cost)),
        has_task(with_task(g, id, cost), id),
        forall|x: char| has_task(with_task(g, id, cost), x) <==> has_task(g, x) || x == id,
        forall|p: char, c: char| has_edge(with_task(g, id, cost), p, c) <==> has_edge(g, p, c),
        forall|x: char| has_task(g, x) ==> task_of(with_task(g, id, cost), x) == task_of(g, x),
        !has_task(g, id) ==> task_of(with_task(g, id, cost), id) == fresh_task(id, cost),
{
    let h = with_task(g, id, cost);
    if !has_task(g, id) {
        lemma_slot_exists(g, id);
        let k = choose|k: int| is_slot(g, id, k);
        let back = |i: int| if i < k { i } else { i - 1 };
        assert(h[k] == fresh_task(id, cost));
        assert forall|i: int| 0 <= i < h.len() && i != k implies #[trigger] h[i] == g[back(i)] by {}
        assert(ascending(h)) by {
            assert forall|i: int, j: int| 0 <= i < j < h.len() implies #[trigger] h[i].id
                < #[trigger] h[j].id by {
                if i != k && j != k {
                    assert(g[back(i)].id < g[back(j)].id);
                } else if i == k {
                    assert(id < g[back(j)].id);
                } else {
                    assert(g[back(i)].id < id);
                }
            }
        }
        assert forall|i: int| 0 <= i < h.len() implies (#[trigger] h[i]).parents.finite() by {
            if i != k {
                assert(g[back(i)].parents.finite());
            }
        }
        assert forall|i: int, p: char| 0 <= i < h.len() && #[trigger] h[i].parents.contains(
            p,
        ) implies exists|j: int|
            0 <= j < h.len() && #[trigger] h[j].id == p && h[j].children.count(h[i].id) > 0 by {
            assert(i != k);
            let i0 = back(i);
            assert(g[i0].parents.contains(p));
            let j0 = choose|j: int|
                0 <= j < g.len() && #[trigger] g[j].id == p && g[j].children.count(g[i0].id) > 0;
            let j = skip(k, j0);
            assert(back(j) == j0);
            assert(h[j] == g[j0]);
            assert(h[j].id == p && h[j].children.count(h[i].id) > 0);
        }
        assert(h[k].id == id);
        assert forall|x: char| has_task(h, x) <==> has_task(g, x) || x == id by {
            if has_task(h, x) && x != id {
                let i = index_of(h, x);
                assert(h[i].id == x);
                assert(g[back(i)].id == x);
            }
            if has_task(g, x) {
                let i0 = index_of(g, x);
                assert(h[skip(k, i0)] == g[back(skip(k, i0))]);
                assert(h[skip(k, i0)].id == x);
            }
        }
        assert forall|p: char, c: char| has_edge(h, p, c) <==> has_edge(g, p, c) by {
            if has_task(g, p) {
                let i0 = index_of(g, p);
                let i = skip(k, i0);
                assert(h[i] == g[back(i)]);
                lemma_index_of(h, p, i);
            } else if has_task(h, p) {
                lemma_index_of(h, id, k);
            }
        }
        assert forall|x: char| has_task(g, x) implies task_of(h, x) == task_of(g, x) by {
            let i0 = index_of(g, x);
            let i = skip(k, i0);
            assert(h[i] == g[back(i)]);
            lemma_index_of(h, x, i);
        }
        lemma_index_of(h, id, k);
    }
}

/// One more child keeps the graph well formed and leaves the tasks as they are.
pub proof fn lemma_with_child(g: Seq<Task>, id: char, child: char)
    requires
        well_formed(g),
        has_task(g, id),
    ensures
        well_formed(with_child(g, id, child)),
        has_edge(with_child(g, id, child), id, child),
        forall|x: char| has_task(with_child(g, id, child), x) <==> has_task(g, x),
        forall|x: char|
            has_task(g, x) && x != id ==> task_of(with_child(g, id, child), x) == task_of(g, x),
        task_of(with_child(g, id, child), id) == (Task {
            children: task_of(g, id).children.insert(child),
            ..task_of(g, id)
        }),
{
    let h = with_child(g, id, child);
    let k = index_of(g, id);
    assert forall|i: int| 0 <= i < h.len() implies (#[trigger] h[i]).id == g[i].id && h[i].parents
        == g[i].parents && h[i].children.count(child) >= g[i].children.count(child) by {}
    assert(ascending(h)) by {
        assert forall|i: int, j: int| 0 <= i < j < h.len() implies #[trigger] h[i].id
            < #[trigger] h[j].id by {
            assert(g[i].id < g[j].id);
        }
    }
    assert forall|i: int| 0 <= i < h.len() implies (#[trigger] h[i]).parents.finite() by {
        assert(g[i].parents.finite());
    }
    assert forall|i: int, p: char| 0 <= i < h.len() && #[trigger] h[i].parents.contains(
        p,
    ) implies exists|j: int|
        0 <= j < h.len() && #[trigger] h[j].id == p && h[j].children.count(h[i].id) > 0 by {
        assert(g[i].parents.contains(p));
        let j = choose|j: int|
            0 <= j < g.len() && #[trigger] g[j].id == p && g[j].children.count(g[i].id) > 0;
        assert(h[j].id == p);
        assert(h[j].children.count(h[i].id) >= g[j].children.count(g[i].id));
    }
    assert forall|x: char| has_task(h, x) <==> has_task(g, x) by {
        if has_task(h, x) {
            let i = index_of(h, x);
            assert(g[i].id == x);
        }
        if has_task(g, x) {
            let i = index_of(g, x);
            assert(h[i].id == x);
        }
    }
    assert(h[k].id == id);
    lemma_index_of(h, id, k);
    assert forall|x: char| has_task(g, x) && x != id implies task_of(h, x) == task_of(g, x) by {
        let i = index_of(g, x);
        assert(h[i] == g[i]);
        lemma_index_of(h, x, i);
    }
}

/// One more parent keeps the graph well formed where the edge is registered
/// with the parent.
pub proof fn lemma_with_parent(g: Seq<Task>, id: char, parent: char)
    requires
        well_formed(g),
        has_task(g, id),
        has_edge(g, parent, id),
    ensures
        well_formed(with_parent(g, id, parent)),
        forall|x: char| has_task(with_parent(g, id, parent), x) <==> has_task(g, x),
        forall|x: char|
            has_task(g, x) && x != id ==> task_of(with_parent(g, id, parent), x) == task_of(g, x),
        task_of(with_parent(g, id, parent), id) == (Task {
            parents: task_of(g, id).parents.insert(parent),
            ..task_of(g, id)
        }),
{
    let h = with_parent(g, id, parent);
    let k = index_of(g, id);
    assert(h[k].id == id);
    assert forall|x: char| has_task(g, x) && x != id implies task_of(h, x) == task_of(g, x) by {
        let i = index_of(g, x);
        assert(h[i] == g[i]);
        assert(ascending(h)) by {
            assert forall|a: int, b: int| 0 <= a < b < h.len() implies #[trigger] h[a].id
                < #[trigger] h[b].id by {
                assert(g[a].id < g[b].id);
            }
        }
        lemma_index_of(h, x, i);
    }
    assert(task_of(h, id) == h[k]) by {
        assert(ascending(h)) by {
            assert forall|a: int, b: int| 0 <= a < b < h.len() implies #[trigger] h[a].id
                < #[trigger] h[b].id by {
                assert(g[a].id < g[b].id);
            }
        }
        lemma_index_of(h, id, k);
    }
    assert forall|i: int| 0 <= i < h.len() implies (#[trigger] h[i]).id == g[i].id && h[i].children
        == g[i].children by {}
    assert(ascending(h)) by {
        assert forall|i: int, j: int| 0 <= i < j < h.len() implies #[trigger] h[i].id
            < #[trigger] h[j].id by {
            assert(g[i].id < g[j].id);
        }
    }
    assert forall|i: int| 0 <= i < h.len() implies (#[trigger] h[i]).parents.finite() by {
        assert(g[i].parents.finite());
    }
    assert forall|i: int, p: char| 0 <= i < h.len() && #[trigger] h[i].parents.contains(
        p,
    ) implies exists|j: int|
        0 <= j < h.len() && #[trigger] h[j].id == p && h[j].children.count(h[i].id) > 0 by {
        if i == k && p == parent {
            let j = index_of(g, parent);
            assert(h[j].id == p);
            assert(h[j].children.count(h[i].id) > 0);
        } else {
            assert(g[i].parents.contains(p));
            let j = choose|j: int|
                0 <= j < g.len() && #[trigger] g[j].id == p && g[j].children.count(g[i].id) > 0;
            assert(h[j].id == p);
            assert(h[j].children.count(h[i].id) > 0);
        }
    }
    assert forall|x: char| has_task(h, x) <==> has_task(g, x) by {
        if has_task(h, x) {
            let i = index_of(h, x);
            assert(g[i].id == x);
        }
        if has_task(g, x) {
            let i = index_of(g, x);
            assert(h[i].id == x);
        }
    }
}

/// The task `id` once the edge from `parent` to `child` is registered: the
/// task as it was, or a fresh one with the cost `offset` plus its letter
/// value; with the child among its children where it is the parent, and the
/// parent among its parents where it is the child.
pub open spec fn task_with_edge(
    g: Seq<Task>,
    parent: char,
    child: char,
    offset: nat,
    id: char,
) -> Task {
    let before = if has_task(g, id) {
        task_of(g, id)
    } else {
        fresh_task(id, offset + letter_value(id))
    };
    Task {
        id,
        parents: if id == child {
            before.parents.insert(parent)
        } else {
            before.parents
        },
        children: if id == parent {
            before.children.insert(child)
        } else {
            before.children
        },
        cost: before.cost,
    }
}

/// Registering an edge keeps the graph well formed. Both ends are tasks
/// afterwards, and no other task is new; the child is one more child of
/// the parent and the parent is a parent of the child, and nothing else
/// changes.
pub proof fn lemma_add_edge(g: Seq<Task>, parent: char, child: char, offset: nat)
    requires
        well_formed(g),
    ensures
        well_formed(add_edge(g, parent, child, offset)),
        forall|x: char|
            has_task(add_edge(g, parent, child, offset), x) <==> has_task(g, x) || x == parent || x
                == child,
        forall|x: char|
            has_task(add_edge(g, parent, child, offset), x) ==> task_of(
                add_edge(g, parent, child, offset),
                x,
            ) == task_with_edge(g, parent, child, offset, x),
{
    let g1 = with_task(g, parent, offset + letter_value(parent));
    lemma_with_task(g, parent, offset + letter_value(parent));
    let g2 = with_child(g1, parent, child);
    lemma_with_child(g1, parent, child);
    let g3 = with_task(g2, child, offset + letter_value(child));
    lemma_with_task(g2, child, offset + letter_value(child));
    lemma_with_parent(g3, child, parent);
    let h = add_edge(g, parent, child, offset);
    assert forall|x: char| has_task(h, x) implies task_of(h, x) == task_with_edge(
        g,
        parent,
        child,
        offset,
        x,
    ) by {
        assert(has_task(g3, x));
        if has_task(g1, x) {
            // The task was there before the child was entered.
            assert(task_of(g1, x).id == x);
            if has_task(g, x) {
                assert(task_of(g1, x) == task_of(g, x));
            } else {
                assert(x == parent);
            }
            assert(has_task(g2, x));
            assert(task_of(g3, x) == task_of(g2, x));
        } else {
            assert(x == child && x != parent && !has_task(g, x) && !has_task(g2, x));
            assert(task_of(g3, x) == fresh_task(child, offset + letter_value(child)));
        }
    }
}

/// One tick of work on a task keeps the graph well formed, and takes no
/// task out but, at most, the one served.
pub proof fn lemma_serve_well_formed(g: Seq<Task>, id: char)
    requires
        well_formed(g),
    ensures
        well_formed(serve(g, id)),
        forall|x: char| x != id && has_task(g, x) ==> has_task(serve(g, id), x),
        forall|x: char| has_task(serve(g, id), x) ==> has_task(g, x),
{
    let h = serve(g, id);
    if has_task(g, id) {
        let k = index_of(g, id);
        if g[k].cost <= 1 {
            lemma_complete_well_formed(g, id);
        } else {
            assert forall|i: int| 0 <= i < h.len() implies (#[trigger] h[i]).id == g[i].id
                && h[i].parents == g[i].parents && h[i].children == g[i].children by {}
            assert(ascending(h)) by {
                assert forall|i: int, j: int| 0 <= i < j < h.len() implies #[trigger] h[i].id
                    < #[trigger] h[j].id by {
                    assert(g[i].id < g[j].id);
                }
            }
            assert forall|i: int| 0 <= i < h.len() implies (#[trigger] h[i]).parents.finite() by {
                assert(g[i].parents.finite());
            }
            assert forall|i: int, p: char| 0 <= i < h.len() && #[trigger] h[i].parents.contains(
                p,
            ) implies exists|j: int|
                0 <= j < h.len() && #[trigger] h[j].id == p && h[j].children.count(h[i].id) > 0 by {
                assert(g[i].parents.contains(p));
                let j = choose|j: int|
                    0 <= j < g.len() && #[trigger] g[j].id == p && g[j].children.count(g[i].id) > 0;
                assert(h[j].id == p);
                assert(h[j].children.count(h[i].id) > 0);
            }
            assert forall|x: char| has_task(h, x) <==> has_task(g, x) by {
                if has_task(h, x) {
                    let i = index_of(h, x);
                    assert(g[i].id == x);
                }
                if has_task(g, x) {
                    let i = index_of(g, x);
                    assert(h[i].id == x);
                }
            }
        }
    }
}

/// Work on any list of tasks keeps the graph well formed.
pub proof fn lemma_serve_all_well_formed(g: Seq<Task>, ids: Seq<char>)
    requires
        well_formed(g),
    ensures
        well_formed(serve_all(g, ids)),
    decreases ids.len(),
{
    if ids.len() > 0 {
        lemma_serve_all_well_formed(g, ids.drop_last());
        lemma_serve_well_formed(serve_all(g, ids.drop_last()), ids.last());
    }
}

/// The first tasks of a graph weigh no more than all of them.
pub proof fn lemma_weight_of_prefix(g: Seq<Task>, n: int)
    requires
        0 <= n <= g.len(),
    ensures
        weight(g.take(n)) <= weight(g),
    decreases g.len(),
{
    if n < g.len() {
        assert(g.drop_last().take(n) =~= g.take(n));
        lemma_weight_of_prefix(g.drop_last(), n);
    } else {
        assert(g.take(n) =~= g);
    }
}

} // verus!
