//! The task dependency tracker.
//!
//! Constructed once from a snapshot of a graph's topology, the tracker
//! keeps, for every task, the set of predecessor tasks it still waits
//! for.  A task with no unresolved predecessors is ready; completing a
//! task removes it from the tracked universe and unblocks exactly the
//! tasks whose last unresolved predecessor it was.

use vstd::prelude::*;

use crate::node_graph::GraphError;
use crate::node_graph::NodeGraph;

verus! {

/// One tracked task: its identifier and the predecessors it still
/// waits for.
#[derive(Debug)]
pub struct TaskEntry {
    pub id: u64,
    pub preds: Vec<u64>,
}

/// The tracker: every pending task with its unresolved predecessors.
/// Completed tasks are removed outright.
#[derive(Debug)]
pub struct TaskDag {
    pub outstanding: Vec<TaskEntry>,
}

impl TaskDag {
    /// The pending task identifiers, in storage order.
    pub open spec fn task_ids(self) -> Seq<u64> {
        self.outstanding@.map_values(|t: TaskEntry| t.id)
    }

    /// The pending universe: every task not yet completed.
    pub open spec fn pending_set(self) -> Set<u64> {
        self.task_ids().to_set()
    }

    /// The storage index of task `t` (well defined while `t` is
    /// pending, because identifiers are unique).
    pub open spec fn idx_of_task(self, t: u64) -> int {
        choose|i: int| 0 <= i < self.outstanding@.len() && self.outstanding@[i].id == t
    }

    /// The unresolved predecessors of task `t`.
    pub open spec fn deps_of(self, t: u64) -> Set<u64> {
        self.outstanding@[self.idx_of_task(t)].preds@.to_set()
    }

    /// Pending tasks with no unresolved predecessor.
    pub open spec fn ready_set(self) -> Set<u64> {
        Set::new(|t: u64| self.pending_set().contains(t) && self.deps_of(t).is_empty())
    }

    /// Pending tasks still waiting for at least one predecessor.
    pub open spec fn blocked_set(self) -> Set<u64> {
        Set::new(|t: u64| self.pending_set().contains(t) && !self.deps_of(t).is_empty())
    }

    /// Well-formedness: task identifiers are unique, and no predecessor
    /// is listed twice.
    pub open spec fn wf(self) -> bool {
        &&& self.task_ids().no_duplicates()
        &&& forall|i: int|
            0 <= i < self.outstanding@.len() ==> (#[trigger] self.outstanding@[i]).preds@.no_duplicates()
    }

    /// An index holding task `t` is the unique such index.
    proof fn lemma_task_idx_unique(self, i: int, t: u64)
        requires
            self.task_ids().no_duplicates(),
            0 <= i < self.outstanding@.len(),
            self.outstanding@[i].id == t,
        ensures
            self.pending_set().contains(t),
            self.idx_of_task(t) == i,
            self.deps_of(t) == self.outstanding@[i].preds@.to_set(),
    {
        assert(self.task_ids()[i] == t);
        assert(self.task_ids().contains(t));
        let j = self.idx_of_task(t);
        assert(0 <= j < self.outstanding@.len() && self.outstanding@[j].id == t);
        if i != j {
            assert(self.task_ids()[i] == self.task_ids()[j]);
            assert(false);
        }
    }

    /// Builds the tracker from a snapshot of the graph's topology: one
    /// task per node, whose predecessor set is the node's direct
    /// in-neighbours.
    #[verifier::loop_isolation(false)]
    pub fn new(graph: &NodeGraph) -> (d: TaskDag)
        requires
            graph.wf(),
        ensures
            d.wf(),
            d.task_ids() == graph.ids(),
            forall|t: u64|
                #[trigger] d.pending_set().contains(t) ==> d.deps_of(t) == Set::new(
                    |u: u64| graph.arcs().contains((u, t)),
                ),
    {
        let mut entries: Vec<TaskEntry> = Vec::new();
        let mut i: usize = 0;
        while i < graph.nodes.len()
            invariant
                i <= graph.nodes@.len(),
                entries@.len() == i,
                forall|m: int|
                    0 <= m < i ==> (#[trigger] entries@[m]).id == graph.nodes@[m].id,
                forall|m: int|
                    0 <= m < i ==> (#[trigger] entries@[m]).preds@.no_duplicates(),
                forall|m: int, u: u64|
                    0 <= m < i ==> ((#[trigger] entries@[m].preds@.contains(u))
                        <==> graph.arcs().contains((u, entries@[m].id))),
            decreases graph.nodes@.len() - i,
        {
            let id = graph.nodes[i].id;
            let mut preds: Vec<u64> = Vec::new();
            let mut k: usize = 0;
            while k < graph.edges.len()
                invariant
                    k <= graph.edges@.len(),
                    preds@.no_duplicates(),
                    forall|u: u64|
                        #[trigger] preds@.contains(u) <==> exists|k2: int|
                            0 <= k2 < k && (#[trigger] graph.edges@[k2]).dst_node == id
                                && graph.edges@[k2].src_node == u,
                decreases graph.edges@.len() - k,
            {
                let e = graph.edges[k];
                let ghost pprev = preds@;
                if e.dst_node == id {
                    if !crate::node_graph::contains_u64(&preds, e.src_node) {
                        proof {
                            crate::node_graph::lemma_push_contains(pprev, e.src_node);
                            crate::node_graph::lemma_push_no_duplicates(pprev, e.src_node);
                        }
                        preds.push(e.src_node);
                    }
                }
                proof {
                    assert forall|u: u64| #[trigger] preds@.contains(u) implies exists|k2: int|
                        0 <= k2 < k + 1 && (#[trigger] graph.edges@[k2]).dst_node == id
                            && graph.edges@[k2].src_node == u by {
                        if pprev.contains(u) {
                            let k2 = choose|k2: int|
                                0 <= k2 < k && (#[trigger] graph.edges@[k2]).dst_node == id
                                    && graph.edges@[k2].src_node == u;
                            assert(0 <= k2 < k + 1 && graph.edges@[k2].dst_node == id
                                && graph.edges@[k2].src_node == u);
                        } else {
                            assert(u == e.src_node);
                            assert(graph.edges@[k as int].dst_node == id
                                && graph.edges@[k as int].src_node == u);
                        }
                    }
                    assert forall|u: u64|
                        (exists|k2: int|
                            0 <= k2 < k + 1 && (#[trigger] graph.edges@[k2]).dst_node == id
                                && graph.edges@[k2].src_node == u) implies preds@.contains(u) by {
                        let k2 = choose|k2: int|
                            0 <= k2 < k + 1 && (#[trigger] graph.edges@[k2]).dst_node == id
                                && graph.edges@[k2].src_node == u;
                        if k2 < k {
                            assert(pprev.contains(u));
                        }
                    }
                }
                k = k + 1;
            }
            entries.push(TaskEntry { id, preds });
            i = i + 1;
        }
        let d = TaskDag { outstanding: entries };
        proof {
            assert(d.task_ids() =~= graph.ids());
            assert forall|t: u64| #[trigger] d.pending_set().contains(t) implies d.deps_of(t)
                == Set::new(|u: u64| graph.arcs().contains((u, t))) by {
                let m = choose|m: int| 0 <= m < d.task_ids().len() && d.task_ids()[m] == t;
                assert(d.outstanding@[m].id == t);
                d.lemma_task_idx_unique(m, t);
                assert(d.deps_of(t) =~= Set::new(|u: u64| graph.arcs().contains((u, t))));
            }
        }
        d
    }

    /// The tasks that are ready to run: pending, with no unresolved
    /// predecessor.
    #[verifier::loop_isolation(false)]
    pub fn ready_tasks(&self) -> (r: Vec<u64>)
        requires
            self.wf(),
        ensures
            r@.no_duplicates(),
            forall|t: u64| #[trigger] r@.contains(t) <==> self.ready_set().contains(t),
    {
        let mut r: Vec<u64> = Vec::new();
        let mut i: usize = 0;
        while i < self.outstanding.len()
            invariant
                i <= self.outstanding@.len(),
                r@.no_duplicates(),
                forall|t: u64|
                    #[trigger] r@.contains(t) <==> exists|m: int|
                        0 <= m < i && (#[trigger] self.outstanding@[m]).id == t
                            && self.outstanding@[m].preds@.len() == 0,
            decreases self.outstanding@.len() - i,
        {
            proof {
                self.lemma_task_idx_unique(i as int, self.outstanding@[i as int].id);
            }
            let ghost rprev = r@;
            if self.outstanding[i].preds.len() == 0 {
                r.push(self.outstanding[i].id);
                proof {
                    self.lemma_push_distinct(rprev, r@, i as int);
                }
            }
            proof {
                assert forall|t: u64| #[trigger] r@.contains(t) implies exists|m: int|
                    0 <= m < i + 1 && (#[trigger] self.outstanding@[m]).id == t
                        && self.outstanding@[m].preds@.len() == 0 by {
                    if rprev.contains(t) {
                        let m = choose|m: int|
                            0 <= m < i && (#[trigger] self.outstanding@[m]).id == t
                                && self.outstanding@[m].preds@.len() == 0;
                        assert(0 <= m < i + 1 && self.outstanding@[m].id == t
                            && self.outstanding@[m].preds@.len() == 0);
                    } else {
                        assert(t == self.outstanding@[i as int].id);
                        assert(self.outstanding@[i as int].id == t
                            && self.outstanding@[i as int].preds@.len() == 0);
                    }
                }
                assert forall|t: u64|
                    (exists|m: int|
                        0 <= m < i + 1 && (#[trigger] self.outstanding@[m]).id == t
                            && self.outstanding@[m].preds@.len() == 0) implies r@.contains(t) by {
                    let m = choose|m: int|
                        0 <= m < i + 1 && (#[trigger] self.outstanding@[m]).id == t
                            && self.outstanding@[m].preds@.len() == 0;
                    if m < i {
                        assert(rprev.contains(t));
                    }
                }
            }
            i = i + 1;
        }
        proof {
            assert forall|t: u64| #[trigger] r@.contains(t) implies self.ready_set().contains(
                t,
            ) by {
                let m = choose|m: int|
                    0 <= m < self.outstanding@.len() && (#[trigger] self.outstanding@[m]).id == t
                        && self.outstanding@[m].preds@.len() == 0;
                self.lemma_task_idx_unique(m, t);
                assert(self.outstanding@[m].preds@.to_set() =~= Set::<u64>::empty());
            }
            assert forall|t: u64| self.ready_set().contains(t) implies r@.contains(t) by {
                let m = choose|m: int|
                    0 <= m < self.outstanding@.len() && (#[trigger] self.outstanding@[m]).id == t;
                self.lemma_task_idx_unique(m, t);
                if self.outstanding@[m].preds@.len() > 0 {
                    assert(self.deps_of(t).contains(self.outstanding@[m].preds@[0]));
                }
            }
        }
        r
    }

    /// The tasks that are blocked: pending, still waiting for at least
    /// one predecessor.
    #[verifier::loop_isolation(false)]
    pub fn blocked_tasks(&self) -> (r: Vec<u64>)
        requires
            self.wf(),
        ensures
            r@.no_duplicates(),
            forall|t: u64| #[trigger] r@.contains(t) <==> self.blocked_set().contains(t),
    {
        let mut r: Vec<u64> = Vec::new();
        let mut i: usize = 0;
        while i < self.outstanding.len()
            invariant
                i <= self.outstanding@.len(),
                r@.no_duplicates(),
                forall|t: u64|
                    #[trigger] r@.contains(t) <==> exists|m: int|
                        0 <= m < i && (#[trigger] self.outstanding@[m]).id == t
                            && self.outstanding@[m].preds@.len() > 0,
            decreases self.outstanding@.len() - i,
        {
            proof {
                self.lemma_task_idx_unique(i as int, self.outstanding@[i as int].id);
            }
            let ghost rprev = r@;
            if self.outstanding[i].preds.len() > 0 {
                r.push(self.outstanding[i].id);
                proof {
                    self.lemma_push_distinct(rprev, r@, i as int);
                }
            }
            proof {
                assert forall|t: u64| #[trigger] r@.contains(t) implies exists|m: int|
                    0 <= m < i + 1 && (#[trigger] self.outstanding@[m]).id == t
                        && self.outstanding@[m].preds@.len() > 0 by {
                    if rprev.contains(t) {
                        let m = choose|m: int|
                            0 <= m < i && (#[trigger] self.outstanding@[m]).id == t
                                && self.outstanding@[m].preds@.len() > 0;
                        assert(0 <= m < i + 1 && self.outstanding@[m].id == t
                            && self.outstanding@[m].preds@.len() > 0);
                    } else {
                        assert(t == self.outstanding@[i as int].id);
                        assert(self.outstanding@[i as int].id == t
                            && self.outstanding@[i as int].preds@.len() > 0);
                    }
                }
                assert forall|t: u64|
                    (exists|m: int|
                        0 <= m < i + 1 && (#[trigger] self.outstanding@[m]).id == t
                            && self.outstanding@[m].preds@.len() > 0) implies r@.contains(t) by {
                    let m = choose|m: int|
                        0 <= m < i + 1 && (#[trigger] self.outstanding@[m]).id == t
                            && self.outstanding@[m].preds@.len() > 0;
                    if m < i {
                        assert(rprev.contains(t));
                    }
                }
            }
            i = i + 1;
        }
        proof {
            assert forall|t: u64| #[trigger] r@.contains(t) implies self.blocked_set().contains(
                t,
            ) by {
                let m = choose|m: int|
                    0 <= m < self.outstanding@.len() && (#[trigger] self.outstanding@[m]).id == t
                        && self.outstanding@[m].preds@.len() > 0;
                self.lemma_task_idx_unique(m, t);
                assert(self.deps_of(t).contains(self.outstanding@[m].preds@[0]));
            }
            assert forall|t: u64| self.blocked_set().contains(t) implies r@.contains(t) by {
                let m = choose|m: int|
                    0 <= m < self.outstanding@.len() && (#[trigger] self.outstanding@[m]).id == t;
                self.lemma_task_idx_unique(m, t);
                if self.outstanding@[m].preds@.len() == 0 {
                    assert(self.outstanding@[m].preds@.to_set() =~= Set::<u64>::empty());
                }
            }
        }
        r
    }

    /// Pushing the identifier at index `i` onto a selection keeps it
    /// duplicate free and extends the selected index range by one.
    proof fn lemma_push_distinct(self, r0: Seq<u64>, r1: Seq<u64>, i: int)
        requires
            self.wf(),
            0 <= i < self.outstanding@.len(),
            r1 == r0.push(self.outstanding@[i].id),
            forall|t: u64|
                #[trigger] r0.contains(t) ==> exists|m: int|
                    0 <= m < i && (#[trigger] self.outstanding@[m]).id == t,
            r0.no_duplicates(),
        ensures
            r1.no_duplicates(),
            forall|t: u64|
                #[trigger] r1.contains(t) ==> r0.contains(t) || t == self.outstanding@[i].id,
            r1.contains(self.outstanding@[i].id),
            forall|t: u64| #[trigger] r0.contains(t) ==> r1.contains(t),
    {
        assert forall|t: u64| #[trigger] r1.contains(t) implies r0.contains(t) || t
            == self.outstanding@[i].id by {
            let m = choose|m: int| 0 <= m < r1.len() && r1[m] == t;
            if m < r0.len() {
                assert(r0[m] == t);
            }
        }
        assert forall|t: u64| #[trigger] r0.contains(t) implies r1.contains(t) by {
            let m = choose|m: int| 0 <= m < r0.len() && r0[m] == t;
            assert(r1[m] == t);
        }
        assert(r1[r1.len() - 1] == self.outstanding@[i].id);
        assert(r1.contains(self.outstanding@[i].id));
        assert forall|m1: int, m2: int| 0 <= m1 < m2 < r1.len() implies r1[m1] != r1[m2] by {
            if m2 == r1.len() - 1 {
                assert(r0.contains(r0[m1]));
                if r0[m1] == self.outstanding@[i].id {
                    let m = choose|m: int|
                        0 <= m < i && (#[trigger] self.outstanding@[m]).id == r0[m1];
                    assert(self.task_ids()[m] == self.task_ids()[i]);
                    assert(false);
                }
            }
        }
    }

    /// Marks `task` complete: removes it from the pending universe and
    /// from every remaining task's predecessor set, and returns exactly
    /// the tasks whose predecessor set became empty as a direct result.
    /// Fails with `NotPending`, changing nothing, if `task` is not
    /// currently pending.
    #[verifier::loop_isolation(false)]
    pub fn complete_task(&mut self, task: u64) -> (r: Result<Vec<u64>, GraphError>)
        requires
            old(self).wf(),
        ensures
            final(self).wf(),
            r is Err ==> *final(self) == *old(self),
            r is Err <==> !old(self).pending_set().contains(task),
            r matches Err(e) ==> e == GraphError::NotPending,
            r is Ok ==> final(self).pending_set() == old(self).pending_set().remove(task),
            r is Ok ==> forall|t: u64|
                #[trigger] final(self).pending_set().contains(t) ==> final(self).deps_of(t) == old(
                    self,
                ).deps_of(t).remove(task),
            r matches Ok(newly) ==> newly@.no_duplicates() && forall|t: u64|
                #[trigger] newly@.contains(t) <==> (old(self).pending_set().contains(t) && t
                    != task && old(self).deps_of(t).contains(task) && old(self).deps_of(
                    t,
                ).remove(task).is_empty()),
    {
        let i = match self.find_task(task) {
            Some(i) => i,
            None => {
                return Err(GraphError::NotPending);
            },
        };
        let ghost g0 = *self;
        let _gone = self.outstanding.remove(i);
        let ghost gmid = *self;
        proof {
            assert(gmid.task_ids() =~= g0.task_ids().remove(i as int));
            g0.lemma_task_idx_unique(i as int, task);
        }
        let mut updated: Vec<TaskEntry> = Vec::new();
        let mut newly: Vec<u64> = Vec::new();
        let mut j: usize = 0;
        while j < self.outstanding.len()
            invariant
                j <= self.outstanding@.len(),
                self.outstanding@ == gmid.outstanding@,
                updated@.len() == j,
                forall|m: int|
                    0 <= m < j ==> (#[trigger] updated@[m]).id == gmid.outstanding@[m].id,
                forall|m: int| 0 <= m < j ==> (#[trigger] updated@[m]).preds@.no_duplicates(),
                forall|m: int, u: u64|
                    0 <= m < j ==> ((#[trigger] updated@[m].preds@.contains(u))
                        <==> gmid.outstanding@[m].preds@.contains(u) && u != task),
                newly@.no_duplicates(),
                forall|t: u64|
                    #[trigger] newly@.contains(t) <==> exists|m: int|
                        0 <= m < j && (#[trigger] gmid.outstanding@[m]).id == t
                            && gmid.outstanding@[m].preds@.contains(task) && (forall|u: u64|
                            gmid.outstanding@[m].preds@.contains(u) ==> u == task),
            decreases self.outstanding@.len() - j,
        {
            let id = self.outstanding[j].id;
            let plen = self.outstanding[j].preds.len();
            let mut nv: Vec<u64> = Vec::new();
            let mut had = false;
            let mut p: usize = 0;
            while p < plen
                invariant
                    p <= plen,
                    plen == self.outstanding@[j as int].preds@.len(),
                    self.outstanding@ == gmid.outstanding@,
                    j < self.outstanding@.len(),
                    nv@.no_duplicates(),
                    had <==> exists|q: int|
                        0 <= q < p && (#[trigger] self.outstanding@[j as int].preds@[q]) == task,
                    forall|u: u64|
                        #[trigger] nv@.contains(u) <==> (exists|q: int|
                            0 <= q < p && (#[trigger] self.outstanding@[j as int].preds@[q]) == u)
                            && u != task,
                decreases plen - p,
            {
                let u = self.outstanding[j].preds[p];
                let ghost nvprev = nv@;
                let ghost hadprev = had;
                if u == task {
                    had = true;
                } else {
                    proof {
                        crate::node_graph::lemma_push_contains(nvprev, u);
                        if nvprev.contains(u) {
                            let q = choose|q: int|
                                0 <= q < p && (#[trigger] self.outstanding@[j as int].preds@[q])
                                    == u;
                            assert(self.outstanding@[j as int].preds@[p as int] == u);
                            assert(false);
                        }
                        crate::node_graph::lemma_push_no_duplicates(nvprev, u);
                    }
                    nv.push(u);
                }
                proof {
                    assert forall|w: u64| #[trigger] nv@.contains(w) implies (exists|q: int|
                        0 <= q < p + 1 && (#[trigger] self.outstanding@[j as int].preds@[q]) == w)
                        && w != task by {
                        if nvprev.contains(w) {
                            let q = choose|q: int|
                                0 <= q < p && (#[trigger] self.outstanding@[j as int].preds@[q])
                                    == w;
                            assert(0 <= q < p + 1 && self.outstanding@[j as int].preds@[q] == w);
                        } else {
                            assert(w == u);
                            assert(self.outstanding@[j as int].preds@[p as int] == w);
                        }
                    }
                    assert forall|w: u64|
                        (exists|q: int|
                            0 <= q < p + 1 && (#[trigger] self.outstanding@[j as int].preds@[q])
                                == w) && w != task implies nv@.contains(w) by {
                        let q = choose|q: int|
                            0 <= q < p + 1 && (#[trigger] self.outstanding@[j as int].preds@[q])
                                == w;
                        if q < p {
                            assert(nvprev.contains(w));
                        } else {
                            assert(w == u);
                        }
                    }
                    assert(had <==> exists|q: int|
                        0 <= q < p + 1 && (#[trigger] self.outstanding@[j as int].preds@[q])
                            == task) by {
                        if had {
                            if hadprev {
                                let q = choose|q: int|
                                    0 <= q < p && (
                                    #[trigger] self.outstanding@[j as int].preds@[q]) == task;
                                assert(0 <= q < p + 1
                                    && self.outstanding@[j as int].preds@[q] == task);
                            } else {
                                assert(u == task);
                                assert(self.outstanding@[j as int].preds@[p as int] == task);
                            }
                        } else {
                            if exists|q: int|
                                0 <= q < p + 1 && (
                                #[trigger] self.outstanding@[j as int].preds@[q]) == task {
                                let q = choose|q: int|
                                    0 <= q < p + 1 && (
                                    #[trigger] self.outstanding@[j as int].preds@[q]) == task;
                                assert(q == p as int);
                                assert(u == task);
                                assert(false);
                            }
                        }
                    }
                }
                p = p + 1;
            }
            let ghost nvs = nv@;
            let ghost newlyprev = newly@;
            proof {
                // link membership in the predecessor list with the scanned indices
                assert forall|u: u64|
                    #[trigger] gmid.outstanding@[j as int].preds@.contains(u) implies exists|q: int|
                    0 <= q < plen && (#[trigger] self.outstanding@[j as int].preds@[q]) == u by {
                    let q = choose|q: int|
                        0 <= q < gmid.outstanding@[j as int].preds@.len()
                            && gmid.outstanding@[j as int].preds@[q] == u;
                    assert(self.outstanding@[j as int].preds@[q] == u);
                }
            }
            if had && nv.len() == 0 {
                proof {
                    crate::node_graph::lemma_push_contains(newlyprev, id);
                    if newlyprev.contains(id) {
                        let m = choose|m: int|
                            0 <= m < j && (#[trigger] gmid.outstanding@[m]).id == id
                                && gmid.outstanding@[m].preds@.contains(task) && (forall|u: u64|
                                gmid.outstanding@[m].preds@.contains(u) ==> u == task);
                        assert(gmid.task_ids()[m] == gmid.task_ids()[j as int]);
                        lemma_ids_distinct(gmid, m, j as int);
                    }
                    crate::node_graph::lemma_push_no_duplicates(newlyprev, id);
                }
                newly.push(id);
            }
            updated.push(TaskEntry { id, preds: nv });
            proof {
                let jj = j as int;
                let jpreds = gmid.outstanding@[jj].preds@;
                // the rebuilt entry holds exactly the old predecessors minus the task
                assert forall|u: u64| #[trigger] nvs.contains(u) implies jpreds.contains(u) && u
                    != task by {
                    let q = choose|q: int|
                        0 <= q < plen && (#[trigger] self.outstanding@[jj].preds@[q]) == u;
                    assert(jpreds[q] == u);
                }
                assert forall|u: u64| jpreds.contains(u) && u != task implies nvs.contains(u) by {
                    let q = choose|q: int| 0 <= q < jpreds.len() && jpreds[q] == u;
                    assert(self.outstanding@[jj].preds@[q] == u);
                }
                assert(updated@[jj].preds@ == nvs);
                // membership in the result after this step
                assert forall|t: u64| #[trigger] newly@.contains(t) implies exists|m: int|
                    0 <= m < j + 1 && (#[trigger] gmid.outstanding@[m]).id == t
                        && gmid.outstanding@[m].preds@.contains(task) && (forall|u: u64|
                        gmid.outstanding@[m].preds@.contains(u) ==> u == task) by {
                    if newlyprev.contains(t) {
                        let m = choose|m: int|
                            0 <= m < j && (#[trigger] gmid.outstanding@[m]).id == t
                                && gmid.outstanding@[m].preds@.contains(task) && (forall|u: u64|
                                gmid.outstanding@[m].preds@.contains(u) ==> u == task);
                        assert(0 <= m < j + 1 && gmid.outstanding@[m].id == t
                            && gmid.outstanding@[m].preds@.contains(task) && (forall|u: u64|
                            gmid.outstanding@[m].preds@.contains(u) ==> u == task));
                    } else {
                        assert(t == id);
                        let q = choose|q: int|
                            0 <= q < plen && (#[trigger] self.outstanding@[jj].preds@[q]) == task;
                        assert(jpreds[q] == task);
                        assert(jpreds.contains(task));
                        assert forall|u: u64| jpreds.contains(u) implies u == task by {
                            if u != task {
                                assert(nvs.contains(u));
                            }
                        }
                        assert(gmid.outstanding@[jj].id == t);
                    }
                }
                assert forall|t: u64|
                    (exists|m: int|
                        0 <= m < j + 1 && (#[trigger] gmid.outstanding@[m]).id == t
                            && gmid.outstanding@[m].preds@.contains(task) && (forall|u: u64|
                            gmid.outstanding@[m].preds@.contains(u) ==> u == task)) implies
                    newly@.contains(t) by {
                    let m = choose|m: int|
                        0 <= m < j + 1 && (#[trigger] gmid.outstanding@[m]).id == t
                            && gmid.outstanding@[m].preds@.contains(task) && (forall|u: u64|
                            gmid.outstanding@[m].preds@.contains(u) ==> u == task);
                    if m < j {
                        assert(newlyprev.contains(t));
                    } else {
                        assert(t == id);
                        assert(jpreds.contains(task));
                        let q = choose|q: int| 0 <= q < jpreds.len() && jpreds[q] == task;
                        assert(self.outstanding@[jj].preds@[q] == task);
                        assert(had);
                        assert(nvs.len() == 0) by {
                            if nvs.len() > 0 {
                                assert(nvs.contains(nvs[0]));
                                assert(jpreds.contains(nvs[0]) && nvs[0] != task);
                            }
                        }
                        assert(newly@.contains(id));
                    }
                }
            }
            j = j + 1;
        }
        self.outstanding = updated;
        proof {
            assert(self.task_ids() =~= gmid.task_ids());
            // pending universe lost exactly the completed task
            assert(self.pending_set() =~= g0.pending_set().remove(task)) by {
                assert forall|t: u64| #[trigger] self.pending_set().contains(t) implies
                    g0.pending_set().contains(t) && t != task by {
                    let m = choose|m: int|
                        0 <= m < gmid.task_ids().len() && gmid.task_ids()[m] == t;
                    let mm = if m < i as int {
                        m
                    } else {
                        m + 1
                    };
                    assert(gmid.outstanding@[m] == g0.outstanding@[mm]);
                    assert(g0.task_ids()[mm] == t);
                    if t == task {
                        assert(g0.task_ids()[mm] == g0.task_ids()[i as int]);
                        lemma_ids_distinct(g0, mm, i as int);
                    }
                }
                assert forall|t: u64|
                    g0.pending_set().contains(t) && t != task implies self.pending_set().contains(
                    t,
                ) by {
                    let m = choose|m: int| 0 <= m < g0.task_ids().len() && g0.task_ids()[m] == t;
                    assert(m != i as int);
                    let mm = if m < i as int {
                        m
                    } else {
                        m - 1
                    };
                    assert(gmid.outstanding@[mm] == g0.outstanding@[m]);
                    assert(self.task_ids()[mm] == t);
                    assert(self.task_ids().contains(t));
                }
            }
            // each remaining task's predecessors lost exactly the task
            assert forall|t: u64| #[trigger] self.pending_set().contains(t) implies self.deps_of(t)
                == g0.deps_of(t).remove(task) by {
                let m = choose|m: int| 0 <= m < self.task_ids().len() && self.task_ids()[m] == t;
                assert(self.outstanding@[m].id == t);
                self.lemma_task_idx_unique(m, t);
                let mm = if m < i as int {
                    m
                } else {
                    m + 1
                };
                assert(gmid.outstanding@[m] == g0.outstanding@[mm]);
                assert(g0.outstanding@[mm].id == t);
                g0.lemma_task_idx_unique(mm, t);
                assert(self.deps_of(t) =~= g0.deps_of(t).remove(task));
            }
            // the returned set is exactly the newly unblocked tasks
            assert forall|t: u64| #[trigger] newly@.contains(t) implies (g0.pending_set().contains(
                t,
            ) && t != task && g0.deps_of(t).contains(task) && g0.deps_of(
                t,
            ).remove(task).is_empty()) by {
                let m = choose|m: int|
                    0 <= m < gmid.outstanding@.len() && (#[trigger] gmid.outstanding@[m]).id == t
                        && gmid.outstanding@[m].preds@.contains(task) && (forall|u: u64|
                        gmid.outstanding@[m].preds@.contains(u) ==> u == task);
                let mm = if m < i as int {
                    m
                } else {
                    m + 1
                };
                assert(gmid.outstanding@[m] == g0.outstanding@[mm]);
                g0.lemma_task_idx_unique(mm, t);
                if t == task {
                    assert(g0.task_ids()[mm] == g0.task_ids()[i as int]);
                    lemma_ids_distinct(g0, mm, i as int);
                }
                assert(g0.deps_of(t).remove(task) =~= Set::<u64>::empty()) by {
                    assert forall|u: u64| g0.deps_of(t).remove(task).contains(u) implies false by {
                        assert(g0.outstanding@[mm].preds@.contains(u));
                    }
                }
            }
            assert forall|t: u64|
                g0.pending_set().contains(t) && t != task && g0.deps_of(t).contains(task)
                    && g0.deps_of(t).remove(task).is_empty() implies newly@.contains(t) by {
                let m = choose|m: int| 0 <= m < g0.task_ids().len() && g0.task_ids()[m] == t;
                g0.lemma_task_idx_unique(m, t);
                assert(m != i as int);
                let mm = if m < i as int {
                    m
                } else {
                    m - 1
                };
                assert(gmid.outstanding@[mm] == g0.outstanding@[m]);
                assert(gmid.outstanding@[mm].preds@.contains(task));
                assert forall|u: u64| gmid.outstanding@[mm].preds@.contains(u) implies u
                    == task by {
                    if u != task {
                        assert(g0.deps_of(t).remove(task).contains(u));
                    }
                }
            }
        }
        Ok(newly)
    }

    /// Finds the storage index of task `t`, if pending.
    #[verifier::loop_isolation(false)]
    fn find_task(&self, t: u64) -> (r: Option<usize>)
        requires
            self.wf(),
        ensures
            match r {
                Some(i) => i < self.outstanding@.len() && self.outstanding@[i as int].id == t
                    && self.pending_set().contains(t) && self.idx_of_task(t) == i as int,
                None => !self.pending_set().contains(t),
            },
    {
        let mut i: usize = 0;
        while i < self.outstanding.len()
            invariant
                i <= self.outstanding@.len(),
                forall|j: int| 0 <= j < i ==> (#[trigger] self.outstanding@[j]).id != t,
            decreases self.outstanding@.len() - i,
        {
            if self.outstanding[i].id == t {
                proof {
                    self.lemma_task_idx_unique(i as int, t);
                }
                return Some(i);
            }
            i = i + 1;
        }
        proof {
            if self.pending_set().contains(t) {
                let j = choose|j: int|
                    0 <= j < self.task_ids().len() && self.task_ids()[j] == t;
                assert(self.outstanding@[j].id == t);
                assert(false);
            }
        }
        None
    }
}

/// Two distinct indices of a duplicate-free identifier sequence hold
/// distinct identifiers.
proof fn lemma_ids_distinct(d: TaskDag, m1: int, m2: int)
    requires
        d.task_ids().no_duplicates(),
        0 <= m1 < d.task_ids().len(),
        0 <= m2 < d.task_ids().len(),
        m1 != m2,
    ensures
        d.task_ids()[m1] != d.task_ids()[m2],
{
}

/// Law: at every moment the ready tasks and the blocked tasks partition
/// the pending universe — their union is exactly the set of tasks not
/// yet completed, and no task is both.
pub proof fn lemma_ready_blocked_partition(d: TaskDag)
    ensures
        d.ready_set().union(d.blocked_set()) =~= d.pending_set(),
        d.ready_set().intersect(d.blocked_set()) =~= Set::<u64>::empty(),
{
}

} // verus!
