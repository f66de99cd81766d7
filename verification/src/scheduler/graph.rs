//! The dependency graph and the scheduler that runs on it.

use crate::scheduler::laws::{
    lemma_exhausting_sequence_is_order, lemma_ready_ids_ascending, lemma_run_exhausts_iff_acyclic,
    lemma_sequence_exhausts_iff_acyclic,
};
use crate::scheduler::model::{
    acyclic, add_edge, after_run, after_sequence, ascending, assigned, complete, completion_time,
    fresh_task, has_edge, has_ready_task, has_task, index_of, is_slot, is_topological_order,
    lemma_add_edge, lemma_complete_well_formed, lemma_first_ready_is_task, lemma_index_of,
    lemma_ready_ids_members, lemma_serve_well_formed, lemma_slot, lemma_tick_weight,
    lemma_weight_of_prefix, lemma_with_child, lemma_with_parent, lemma_with_task, letter_value,
    ready_ids, sequence, serve, serve_all, tick, weight, well_formed, with_child, with_parent,
    with_task, Task,
};
use vstd::multiset::Multiset;
use vstd::prelude::*;
use vstd::seq_lib::{to_multiset_contains, to_multiset_insert};

verus! {

/// Why the scheduler turned a call down.
#[derive(Debug, Clone, Copy, PartialEq, Eq, Structural)]
pub enum SchedulerError {
    /// The task named is not in the graph.
    UnknownTask,
    /// A worker pool needs at least one worker.
    InvalidWorkerCount,
    /// Tasks are left that wait for each other.
    DependencyCycle,
}

/// The cost of the task `c` under the given offset.
pub fn get_effort(c: char, offset: usize) -> (effort: usize)
    requires
        offset + letter_value(c) <= usize::MAX,
    ensures
        effort == offset + letter_value(c),
{
    if 'a' <= c && c <= 'z' {
        let value: u32 = c as u32 - 'a' as u32 + 1;
        offset + value as usize
    } else if 'A' <= c && c <= 'Z' {
        let value: u32 = c as u32 - 'A' as u32 + 1;
        offset + value as usize
    } else {
        offset
    }
}

/// No entry is larger than a later one.
spec fn sorted(s: Seq<char>) -> bool {
    forall|i: int, j: int| 0 <= i < j < s.len() ==> s[i] <= s[j]
}

/// Every entry is smaller than each later one.
spec fn strictly_sorted(s: Seq<char>) -> bool {
    forall|i: int, j: int| 0 <= i < j < s.len() ==> s[i] < s[j]
}

/// Where `c` stands, or has to stand, in a sorted list: behind every smaller
/// entry and before the others.
fn slot_in(v: &Vec<char>, c: char) -> (k: usize)
    requires
        sorted(v@),
    ensures
        k <= v.len(),
        forall|i: int| 0 <= i < k ==> v[i] < c,
        forall|i: int| k <= i < v.len() ==> c <= v[i],
{
    let mut k: usize = 0;
    while k < v.len() && v[k] < c
        invariant
            k <= v.len(),
            forall|i: int| 0 <= i < k ==> v[i] < c,
        decreases v.len() - k,
    {
        k += 1;
    }
    k
}

proof fn lemma_insert_to_set(s: Seq<char>, k: int, c: char)
    requires
        0 <= k <= s.len(),
    ensures
        s.insert(k, c).to_set() =~= s.to_set().insert(c),
{
    let t = s.insert(k, c);
    assert forall|x: char| t.to_set().contains(x) <==> s.to_set().insert(c).contains(x) by {
        if t.contains(x) {
            let i = choose|i: int| 0 <= i < t.len() && t[i] == x;
            if i < k {
                assert(s[i] == x);
            } else if i > k {
                assert(s[i - 1] == x);
            }
        }
        if s.contains(x) {
            let i = choose|i: int| 0 <= i < s.len() && s[i] == x;
            if i < k {
                assert(t[i] == x);
            } else {
                assert(t[i + 1] == x);
            }
        }
        if x == c {
            assert(t[k] == x);
        }
    }
}

proof fn lemma_remove_to_set(s: Seq<char>, k: int)
    requires
        0 <= k < s.len(),
        strictly_sorted(s),
    ensures
        s.remove(k).to_set() =~= s.to_set().remove(s[k]),
{
    let t = s.remove(k);
    assert forall|x: char| t.to_set().contains(x) <==> s.to_set().remove(s[k]).contains(x) by {
        if t.contains(x) {
            let i = choose|i: int| 0 <= i < t.len() && t[i] == x;
            if i < k {
                assert(s[i] == x);
            } else {
                assert(s[i + 1] == x);
            }
        }
        if s.contains(x) && x != s[k] {
            let i = choose|i: int| 0 <= i < s.len() && s[i] == x;
            if i < k {
                assert(t[i] == x);
            } else {
                assert(t[i - 1] == x);
            }
        }
    }
}

/// One task of the graph, with its relations held as sorted lists.
struct Node {
    id: char,
    parents: Vec<char>,
    children: Vec<char>,
    effort: usize,
}

impl Node {
    /// The task that the node stands for.
    closed spec fn model(&self) -> Task {
        Task {
            id: self.id,
            parents: self.parents@.to_set(),
            children: self.children@.to_multiset(),
            cost: self.effort as nat,
        }
    }

    /// The parents are sorted and occur once each; the children are sorted.
    closed spec fn inv(&self) -> bool {
        strictly_sorted(self.parents@) && sorted(self.children@)
    }

    fn fresh(id: char, effort: usize) -> (node: Node)
        ensures
            node.inv(),
            node.model() == crate::scheduler::model::fresh_task(id, effort as nat),
    {
        let node = Node { id, parents: Vec::new(), children: Vec::new(), effort };
        proof {
            assert(node.parents@.to_set() =~= Set::<char>::empty());
            assert(node.children@.to_multiset() =~= Multiset::<char>::empty()) by {
                broadcast use vstd::seq_lib::group_to_multiset_ensures;
            }
        }
        node
    }

    fn is_free(&self) -> (free: bool)
        requires
            self.inv(),
        ensures
            free == crate::scheduler::model::is_ready(self.model()),
    {
        proof {
            if self.parents@.len() > 0 {
                assert(self.parents@.to_set().contains(self.parents@[0]));
            }
        }
        self.parents.len() == 0
    }

    /// Enters `child` once more; says whether it was a child already.
    fn add_child(&mut self, child: char) -> (known: bool)
        requires
            old(self).inv(),
        ensures
            final(self).inv(),
            known == (old(self).model().children.count(child) > 0),
            final(self).model() == (Task {
                children: old(self).model().children.insert(child),
                ..old(self).model()
            }),
    {
        let k = slot_in(&self.children, child);
        let known = k < self.children.len() && self.children[k] == child;
        proof {
            let s = self.children@;
            to_multiset_contains(s, child);
            to_multiset_insert(s, k as int, child);
            if s.contains(child) {
                let i = choose|i: int| 0 <= i < s.len() && s[i] == child;
                assert(k <= i);
                assert(s[k as int] <= s[i]);
            }
            if known {
                assert(s.contains(child));
            }
        }
        self.children.insert(k, child);
        known
    }

    /// Enters `parent` unless it is a parent already.
    fn add_parent(&mut self, parent: char)
        requires
            old(self).inv(),
        ensures
            final(self).inv(),
            final(self).model() == (Task {
                parents: old(self).model().parents.insert(parent),
                ..old(self).model()
            }),
    {
        proof {
            assert(sorted(self.parents@));
        }
        let k = slot_in(&self.parents, parent);
        if k < self.parents.len() && self.parents[k] == parent {
            proof {
                assert(self.parents@.to_set().contains(parent));
                assert(self.parents@.to_set().insert(parent) =~= self.parents@.to_set());
            }
        } else {
            proof {
                lemma_insert_to_set(self.parents@, k as int, parent);
            }
            self.parents.insert(k, parent);
        }
    }

    /// Strikes `id` from the parents.
    fn release(&mut self, id: char)
        requires
            old(self).inv(),
        ensures
            final(self).inv(),
            final(self).model() == crate::scheduler::model::release(old(self).model(), id),
    {
        proof {
            assert(sorted(self.parents@));
        }
        let k = slot_in(&self.parents, id);
        if k < self.parents.len() && self.parents[k] == id {
            proof {
                lemma_remove_to_set(self.parents@, k as int);
            }
            self.parents.remove(k);
        } else {
            proof {
                let s = self.parents@;
                if s.contains(id) {
                    let i = choose|i: int| 0 <= i < s.len() && s[i] == id;
                    assert(k <= i);
                    assert(s[k as int] <= s[i]);
                }
                assert(s.to_set().remove(id) =~= s.to_set());
            }
        }
    }
}

/// The dependency graph: the tasks in ascending order of identifier.
pub struct Graph {
    nodes: Vec<Node>,
}

impl View for Graph {
    type V = Seq<Task>;

    closed spec fn view(&self) -> Seq<Task> {
        self.nodes@.map_values(|n: Node| n.model())
    }
}

impl Graph {
    /// Every node keeps its lists sorted.
    pub closed spec fn inv(&self) -> bool {
        forall|i: int| 0 <= i < self.nodes@.len() ==> (#[trigger] self.nodes@[i]).inv()
    }

    /// The graph is well formed.
    pub open spec fn wf(&self) -> bool {
        self.inv() && well_formed(self@)
    }

    /// A graph without tasks.
    pub fn new() -> (graph: Graph)
        ensures
            graph.wf(),
            graph@ == Seq::<Task>::empty(),
    {
        let graph = Graph { nodes: Vec::new() };
        assert(graph@ =~= Seq::<Task>::empty());
        graph
    }

    /// The number of tasks in the graph.
    pub fn len(&self) -> (n: usize)
        ensures
            n == self@.len(),
    {
        self.nodes.len()
    }

    /// The ticks of work in the graph, a task without cost counted as one
    /// tick, where the number fits the machine's numbers.
    pub fn work_left(&self) -> (ticks: Option<usize>)
        ensures
            ticks == if weight(self@) <= usize::MAX {
                Some(weight(self@) as usize)
            } else {
                None
            },
    {
        let mut total: usize = 0;
        let mut i: usize = 0;
        while i < self.nodes.len()
            invariant
                i <= self.nodes.len(),
                total == weight(self@.take(i as int)),
            decreases self.nodes.len() - i,
        {
            proof {
                assert(self@.take(i + 1).drop_last() =~= self@.take(i as int));
                assert(self@.take(i + 1).last() == self@[i as int]);
                lemma_weight_of_prefix(self@, i + 1);
            }
            let ticks = if self.nodes[i].effort == 0 {
                1
            } else {
                self.nodes[i].effort
            };
            if ticks > usize::MAX - total {
                return None;
            }
            total = total + ticks;
            i += 1;
        }
        proof {
            assert(self@.take(i as int) =~= self@);
        }
        Some(total)
    }

    /// Where the task `id` stands, or has to stand, and whether it is there.
    fn locate(&self, id: char) -> (at: (usize, bool))
        requires
            ascending(self@),
        ensures
            at.0 <= self@.len(),
            at.1 == has_task(self@, id),
            at.1 ==> at.0 < self@.len() && self@[at.0 as int].id == id && index_of(self@, id) == at.0,
            !at.1 ==> is_slot(self@, id, at.0 as int),
    {
        let mut k: usize = 0;
        while k < self.nodes.len() && self.nodes[k].id < id
            invariant
                k <= self.nodes.len(),
                forall|i: int| 0 <= i < k ==> (#[trigger] self@[i]).id < id,
            decreases self.nodes.len() - k,
        {
            k += 1;
        }
        let found = k < self.nodes.len() && self.nodes[k].id == id;
        proof {
            if found {
                lemma_index_of(self@, id, k as int);
            } else {
                assert forall|i: int| k <= i < self@.len() implies id < (#[trigger] self@[i]).id by {
                    if i > k {
                        assert(self@[k as int].id < self@[i].id);
                    }
                }
                lemma_slot(self@, id, k as int);
            }
        }
        (k, found)
    }

    /// Makes sure that the task `id` exists, with the given effort where it is
    /// new, and says where it stands.
    fn ensure_node(&mut self, id: char, effort: usize) -> (k: usize)
        requires
            old(self).wf(),
        ensures
            final(self).wf(),
            final(self)@ == with_task(old(self)@, id, effort as nat),
            k < final(self)@.len(),
            final(self)@[k as int].id == id,
            index_of(final(self)@, id) == k,
    {
        let (k, found) = self.locate(id);
        proof {
            lemma_with_task(self@, id, effort as nat);
        }
        if !found {
            let node = Node::fresh(id, effort);
            self.nodes.insert(k, node);
            proof {
                lemma_slot(old(self)@, id, k as int);
                assert(self@ =~= old(self)@.insert(k as int, fresh_task(id, effort as nat)));
                assert(self@ == with_task(old(self)@, id, effort as nat));
                assert forall|i: int| 0 <= i < self.nodes@.len() implies (
                #[trigger] self.nodes@[i]).inv() by {
                    if i < k {
                        assert(self.nodes@[i] == old(self).nodes@[i]);
                    } else if i > k {
                        assert(self.nodes@[i] == old(self).nodes@[i - 1]);
                    }
                }
                lemma_index_of(self@, id, k as int);
            }
        }
        k
    }

    /// Registers that `child` must not start before `parent` has completed,
    /// and says whether that was registered before. A task that is new gets
    /// the cost `offset` plus the letter value of its identifier.
    pub fn add_node_pair(&mut self, parent: char, child: char, offset: usize) -> (known: bool)
        requires
            old(self).wf(),
            offset + letter_value(parent) <= usize::MAX,
            offset + letter_value(child) <= usize::MAX,
        ensures
            final(self).wf(),
            final(self)@ == add_edge(old(self)@, parent, child, offset as nat),
            known == has_edge(old(self)@, parent, child),
            forall|id: char|
                has_task(final(self)@, id) <==> has_task(old(self)@, id) || id == parent || id
                    == child,
    {
        proof {
            lemma_add_edge(self@, parent, child, offset as nat);
        }
        let parent_effort = get_effort(parent, offset);
        let child_effort = get_effort(child, offset);
        let k = self.ensure_node(parent, parent_effort);
        let ghost g1 = self@;
        proof {
            lemma_with_task(old(self)@, parent, parent_effort as nat);
            lemma_with_child(g1, parent, child);
        }
        let known = self.nodes[k].add_child(child);
        let ghost g2 = self@;
        proof {
            assert(g2 =~= with_child(g1, parent, child));
            if has_task(old(self)@, parent) {
                assert(g1 == old(self)@);
            } else {
                assert(!has_edge(old(self)@, parent, child));
            }
        }
        let m = self.ensure_node(child, child_effort);
        let ghost g3 = self@;
        proof {
            lemma_with_task(g2, child, child_effort as nat);
            lemma_with_parent(g3, child, parent);
        }
        self.nodes[m].add_parent(parent);
        proof {
            assert(self@ =~= with_parent(g3, child, parent));
        }
        known
    }

    /// The ready tasks: those without a parent, in ascending order.
    pub fn get_free_nodes(&self) -> (free: Vec<char>)
        requires
            self.wf(),
        ensures
            free@ == ready_ids(self@),
            forall|id: char| free@.contains(id) <==> has_ready_task(self@, id),
            forall|a: int, b: int| 0 <= a < b < free@.len() ==> free@[a] < free@[b],
    {
        let mut entry_points: Vec<char> = Vec::new();
        let mut i: usize = 0;
        while i < self.nodes.len()
            invariant
                i <= self.nodes.len(),
                self.inv(),
                entry_points@ == ready_ids(self@.take(i as int)),
            decreases self.nodes.len() - i,
        {
            proof {
                let next = self@.take(i + 1);
                assert(next.drop_last() =~= self@.take(i as int));
                assert(next.last() == self@[i as int]);
            }
            if self.nodes[i].is_free() {
                entry_points.push(self.nodes[i].id);
            }
            i += 1;
        }
        proof {
            assert(self@.take(i as int) =~= self@);
            lemma_ready_ids_members(self@);
            lemma_ready_ids_ascending(self@);
        }
        entry_points
    }

    /// Completes the task `parent`: takes it out of the graph and strikes it
    /// from the parents of every task that is left.
    pub fn remove_parent_from_nodes(&mut self, parent: char) -> (done: Result<(), SchedulerError>)
        requires
            old(self).wf(),
        ensures
            final(self).wf(),
            final(self)@ == complete(old(self)@, parent),
            done.is_ok() == has_task(old(self)@, parent),
            done.is_err() ==> done == Err::<(), SchedulerError>(SchedulerError::UnknownTask),
            done.is_err() ==> final(self)@ == old(self)@,
            done.is_ok() ==> final(self)@.len() == old(self)@.len() - 1,
            forall|id: char| has_task(final(self)@, id) <==> has_task(old(self)@, id) && id != parent,
    {
        proof {
            lemma_complete_well_formed(self@, parent);
        }
        let (k, found) = self.locate(parent);
        if !found {
            return Err(SchedulerError::UnknownTask);
        }
        let ghost before = self.nodes@;
        let mut i: usize = 0;
        while i < self.nodes.len()
            invariant
                i <= self.nodes.len(),
                self.nodes@.len() == before.len(),
                self.inv(),
                forall|j: int|
                    0 <= j < i ==> (#[trigger] self.nodes@[j]).model()
                        == crate::scheduler::model::release(before[j].model(), parent),
                forall|j: int| i <= j < before.len() ==> #[trigger] self.nodes@[j] == before[j],
                forall|j: int| 0 <= j < before.len() ==> (#[trigger] before[j]).inv(),
            decreases self.nodes.len() - i,
        {
            self.nodes[i].release(parent);
            i += 1;
        }
        self.nodes.remove(k);
        proof {
            lemma_complete_well_formed(old(self)@, parent);
            assert(self@ =~= complete(old(self)@, parent));
        }
        Ok(())
    }

    /// The order in which a single worker that needs no time completes the
    /// tasks: always the smallest ready task next. The graph is left with the
    /// tasks that never became ready; where there are any, they wait for each
    /// other and the call fails.
    pub fn get_sequence(&mut self) -> (order: Result<String, SchedulerError>)
        requires
            old(self).wf(),
        ensures
            final(self).wf(),
            final(self)@ == after_sequence(old(self)@),
            order.is_ok() == (after_sequence(old(self)@).len() == 0),
            order.is_ok() == acyclic(old(self)@),
            order matches Ok(text) ==> text@ == sequence(old(self)@) && is_topological_order(
                old(self)@,
                text@,
            ),
            order matches Err(e) ==> e == SchedulerError::DependencyCycle,
    {
        proof {
            lemma_sequence_exhausts_iff_acyclic(self@);
            if after_sequence(self@).len() == 0 {
                lemma_exhausting_sequence_is_order(self@);
            }
        }
        let mut free_nodes = self.get_free_nodes();
        let mut final_sequence = String::new();
        while free_nodes.len() > 0
            invariant
                self.wf(),
                free_nodes@ == ready_ids(self@),
                sequence(old(self)@) == final_sequence@ + sequence(self@),
                after_sequence(old(self)@) == after_sequence(self@),
            decreases self@.len(),
        {
            let next = free_nodes[0];
            proof {
                lemma_first_ready_is_task(self@);
                assert(final_sequence@.push(next) + sequence(complete(self@, next))
                    =~= final_sequence@ + (seq![next] + sequence(complete(self@, next))));
            }
            let _ = self.remove_parent_from_nodes(next);
            final_sequence.push(next);
            free_nodes = self.get_free_nodes();
        }
        proof {
            assert(final_sequence@ + sequence(self@) =~= final_sequence@);
        }
        if self.nodes.len() > 0 {
            Err(SchedulerError::DependencyCycle)
        } else {
            Ok(final_sequence)
        }
    }

    /// One tick of work on the task `id`, where it is in the graph: its
    /// effort goes down by one, and the task completes where none is left.
    fn work_on(&mut self, id: char)
        requires
            old(self).wf(),
        ensures
            final(self).wf(),
            final(self)@ == serve(old(self)@, id),
    {
        let (k, found) = self.locate(id);
        proof {
            lemma_serve_well_formed(self@, id);
        }
        if found {
            if self.nodes[k].effort <= 1 {
                let _ = self.remove_parent_from_nodes(id);
            } else {
                self.nodes[k].effort -= 1;
                proof {
                    let t = old(self)@[k as int];
                    assert(self@ =~= old(self)@.update(
                        k as int,
                        Task { cost: (t.cost - 1) as nat, ..t },
                    ));
                }
            }
        }
    }

    /// One tick: each of the `number_of_workers` smallest ready tasks gets one
    /// unit of work. Says whether any task was ready.
    pub fn reduce_effort(&mut self, number_of_workers: usize) -> (progress: bool)
        requires
            old(self).wf(),
        ensures
            final(self).wf(),
            progress == (ready_ids(old(self)@).len() > 0),
            progress ==> final(self)@ == tick(old(self)@, number_of_workers as nat),
            !progress ==> final(self)@ == old(self)@,
    {
        let free_nodes = self.get_free_nodes();
        if free_nodes.len() == 0 {
            return false;
        }
        let busy = if number_of_workers < free_nodes.len() {
            number_of_workers
        } else {
            free_nodes.len()
        };
        let mut x: usize = 0;
        while x < busy
            invariant
                x <= busy <= free_nodes.len(),
                self.wf(),
                self@ == serve_all(old(self)@, free_nodes@.take(x as int)),
            decreases busy - x,
        {
            proof {
                let now = free_nodes@.take(x + 1);
                assert(now.drop_last() =~= free_nodes@.take(x as int));
                assert(now.last() == free_nodes@[x as int]);
            }
            self.work_on(free_nodes[x]);
            x += 1;
        }
        proof {
            assert(free_nodes@.take(busy as int) =~= assigned(old(self)@, number_of_workers as nat));
        }
        true
    }

    /// The ticks that `workers` workers need for the graph. The graph is left
    /// with the tasks that never became ready; where there are any, they wait
    /// for each other and the call fails, as it does without a worker.
    pub fn get_completion_time(&mut self, workers: usize) -> (time: Result<usize, SchedulerError>)
        requires
            old(self).wf(),
            weight(old(self)@) <= usize::MAX,
        ensures
            final(self).wf(),
            workers == 0 ==> final(self)@ == old(self)@ && time == Err::<usize, SchedulerError>(
                SchedulerError::InvalidWorkerCount,
            ),
            workers > 0 ==> final(self)@ == after_run(old(self)@, workers as nat),
            workers > 0 && after_run(old(self)@, workers as nat).len() == 0 ==> time == Ok::<
                usize,
                SchedulerError,
            >(completion_time(old(self)@, workers as nat) as usize),
            workers > 0 && after_run(old(self)@, workers as nat).len() > 0 ==> time == Err::<
                usize,
                SchedulerError,
            >(SchedulerError::DependencyCycle),
            workers > 0 ==> completion_time(old(self)@, workers as nat) <= usize::MAX,
            time.is_ok() == (workers > 0 && acyclic(old(self)@)),
    {
        proof {
            if workers > 0 {
                lemma_run_exhausts_iff_acyclic(self@, workers as nat);
            }
        }
        if workers == 0 {
            return Err(SchedulerError::InvalidWorkerCount);
        }
        let mut time: usize = 0;
        loop
            invariant
                workers > 0,
                self.wf(),
                time + weight(self@) <= weight(old(self)@) <= usize::MAX,
                time + completion_time(self@, workers as nat) == completion_time(
                    old(self)@,
                    workers as nat,
                ),
                after_run(self@, workers as nat) == after_run(old(self)@, workers as nat),
            ensures
                ready_ids(self@).len() == 0,
            decreases weight(self@),
        {
            proof {
                if ready_ids(self@).len() > 0 {
                    lemma_tick_weight(self@, workers as nat);
                }
            }
            let progress = self.reduce_effort(workers);
            if !progress {
                break ;
            }
            time += 1;
        }
        if self.nodes.len() > 0 {
            Err(SchedulerError::DependencyCycle)
        } else {
            Ok(time)
        }
    }
}

} // verus!
