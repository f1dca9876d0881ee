//! The task ledger of the mesh's orchestrating node.
//!
//! The orchestrator splits a directive into sub-tasks, remembers each
//! dispatched task with the time it went out, forgets a task once a worker
//! reports its result, and hands back for reassignment every task that has
//! been out longer than its timeout.  Times are nanoseconds on a monotonic
//! clock, which the caller reads.
use vstd::prelude::*;
use crate::text::str_equal;

verus! {

/// Seconds a task may stay out before it is reassigned.
pub const TASK_TIMEOUT_SECS: u64 = 45;

/// Nanoseconds per second.
pub const NANOS_PER_SEC: u64 = 1_000_000_000;

/// A sub-task sent to the swarm.
pub struct OrchestratedTask {
    pub task_id: String,
    pub instruction: String,
    pub payload: String,
}

/// The mathematical model of an [`OrchestratedTask`].
pub struct TaskModel {
    pub task_id: Seq<char>,
    pub instruction: Seq<char>,
    pub payload: Seq<char>,
}

impl View for OrchestratedTask {
    type V = TaskModel;

    open spec fn view(&self) -> TaskModel {
        TaskModel { task_id: self.task_id@, instruction: self.instruction@, payload: self.payload@ }
    }
}

impl OrchestratedTask {
    /// A copy of the task.
    pub fn duplicate(&self) -> (t: OrchestratedTask)
        ensures
            t@ == self@,
    {
        OrchestratedTask {
            task_id: self.task_id.clone(),
            instruction: self.instruction.clone(),
            payload: self.payload.clone(),
        }
    }
}

/// A dispatched task the orchestrator waits on.
pub struct PendingTask {
    pub task: OrchestratedTask,
    pub assigned_worker: Option<String>,
    /// When the task went out, in nanoseconds.
    pub dispatched_at: u64,
    pub timeout_secs: u64,
}

/// The mathematical model of a [`PendingTask`].
pub struct PendingModel {
    pub task: TaskModel,
    pub worker: Option<Seq<char>>,
    pub dispatched_at: u64,
    pub timeout_secs: u64,
}

impl View for PendingTask {
    type V = PendingModel;

    open spec fn view(&self) -> PendingModel {
        PendingModel {
            task: self.task@,
            worker: match self.assigned_worker {
                Some(w) => Some(w@),
                None => None,
            },
            dispatched_at: self.dispatched_at,
            timeout_secs: self.timeout_secs,
        }
    }
}

/// Whole seconds from `at` to `now`, 0 when `now` is not later.
pub open spec fn elapsed_secs(at: u64, now: u64) -> int {
    if now > at {
        (now - at) / (NANOS_PER_SEC as int)
    } else {
        0
    }
}

/// The task has been out longer than its timeout at `now`.
pub open spec fn overdue(p: PendingModel, now: u64) -> bool {
    elapsed_secs(p.dispatched_at, now) > p.timeout_secs
}

/// The task sent out again at `now`, to no worker yet.
pub open spec fn redispatched(p: PendingModel, now: u64) -> PendingModel {
    PendingModel { worker: None, dispatched_at: now, ..p }
}

/// The orchestrator's ledger: the tasks it waits on, by task id.
pub struct SwarmOrchestrator {
    pub active_tasks: Vec<PendingTask>,
}

/// The ids of the entries of `v`.
pub open spec fn ids_of(v: Seq<PendingTask>) -> Seq<Seq<char>> {
    v.map_values(|p: PendingTask| p.task.task_id@)
}

/// The ledger as a map from task id to pending task.
pub open spec fn ledger_map(v: Seq<PendingTask>) -> Map<Seq<char>, PendingModel> {
    Map::new(|id: Seq<char>| ids_of(v).contains(id), |id: Seq<char>| v[ids_of(v).index_of(id)]@)
}

impl View for SwarmOrchestrator {
    type V = Map<Seq<char>, PendingModel>;

    open spec fn view(&self) -> Map<Seq<char>, PendingModel> {
        ledger_map(self.active_tasks@)
    }
}

/// The sub-tasks a directive is split into.
pub open spec fn directive_tasks() -> Seq<TaskModel> {
    seq![
        TaskModel {
            task_id: "T-01"@,
            instruction: "Scrape SEC Filings for target"@,
            payload: "https://sec.gov"@,
        },
        TaskModel {
            task_id: "T-02"@,
            instruction: "Run local LoRA Sentiment Analysis on scraped text"@,
            payload: "WAITING_ON_T-01"@,
        },
        TaskModel {
            task_id: "T-03"@,
            instruction: "Calculate NAS100 Systemic Risk Exposure"@,
            payload: "WAITING_ON_T-02"@,
        },
    ]
}

/// `m` with each of `tasks` pending from `now`, unassigned, with the
/// standard timeout.
pub open spec fn with_tasks(m: Map<Seq<char>, PendingModel>, tasks: Seq<TaskModel>, now: u64) -> Map<
    Seq<char>,
    PendingModel,
>
    decreases tasks.len(),
{
    if tasks.len() == 0 {
        m
    } else {
        with_tasks(m, tasks.drop_last(), now).insert(
            tasks.last().task_id,
            PendingModel {
                task: tasks.last(),
                worker: None,
                dispatched_at: now,
                timeout_secs: TASK_TIMEOUT_SECS,
            },
        )
    }
}

/// The ledger after a timeout scan at `now`: overdue tasks redispatched,
/// the others unchanged.
pub open spec fn after_scan(m: Map<Seq<char>, PendingModel>, now: u64) -> Map<Seq<char>, PendingModel> {
    Map::new(
        |id: Seq<char>| m.contains_key(id),
        |id: Seq<char>|
            if overdue(m[id], now) {
                redispatched(m[id], now)
            } else {
                m[id]
            },
    )
}

/// With distinct ids, every entry is in the map under its id.
proof fn lemma_ledger_distinct(v: Seq<PendingTask>)
    requires
        ids_of(v).no_duplicates(),
    ensures
        forall|k: int|
            0 <= k < v.len() ==> ledger_map(v).contains_key(#[trigger] ids_of(v)[k]) && ledger_map(
                v,
            )[ids_of(v)[k]] == v[k]@,
        forall|id: Seq<char>| #[trigger] ledger_map(v).contains_key(id) <==> ids_of(v).contains(id),
{
    assert forall|k: int| 0 <= k < v.len() implies ledger_map(v).contains_key(
        #[trigger] ids_of(v)[k],
    ) && ledger_map(v)[ids_of(v)[k]] == v[k]@ by {
        let id = ids_of(v)[k];
        assert(ids_of(v).contains(id));
        let j = ids_of(v).index_of(id);
        assert(0 <= j < ids_of(v).len() && ids_of(v)[j] == id);
        assert(j == k);
    }
}

/// The increasing positions, below `n`, of the tasks overdue at `now`.
pub open spec fn overdue_positions(v: Seq<PendingModel>, now: u64, n: int) -> Seq<int>
    decreases n,
{
    if n <= 0 {
        Seq::empty()
    } else {
        let p = overdue_positions(v, now, n - 1);
        if overdue(v[n - 1], now) {
            p.push(n - 1)
        } else {
            p
        }
    }
}

/// `overdue_positions` lists, in increasing order, exactly the overdue
/// positions below `n`.
proof fn lemma_overdue_positions(v: Seq<PendingModel>, now: u64, n: int)
    requires
        0 <= n <= v.len(),
    ensures
        forall|a: int|
            0 <= a < overdue_positions(v, now, n).len() ==> 0 <= #[trigger] overdue_positions(
                v,
                now,
                n,
            )[a] < n && overdue(v[overdue_positions(v, now, n)[a]], now),
        forall|a: int, b: int|
            0 <= a < b < overdue_positions(v, now, n).len() ==> #[trigger] overdue_positions(
                v,
                now,
                n,
            )[a] < #[trigger] overdue_positions(v, now, n)[b],
        forall|k: int|
            0 <= k < n && overdue(#[trigger] v[k], now) ==> overdue_positions(v, now, n).contains(k),
    decreases n,
{
    if n > 0 {
        lemma_overdue_positions(v, now, n - 1);
        let p = overdue_positions(v, now, n - 1);
        if overdue(v[n - 1], now) {
            let q = p.push(n - 1);
            assert(q[q.len() - 1] == n - 1);
            assert forall|k: int| 0 <= k < n && overdue(#[trigger] v[k], now) implies q.contains(
                k,
            ) by {
                if k < n - 1 {
                    let a = choose|a: int| 0 <= a < p.len() && p[a] == k;
                    assert(q[a] == k);
                }
            }
        }
    }
}

/// The models of a list of tasks.
pub open spec fn task_views(v: Seq<OrchestratedTask>) -> Seq<TaskModel> {
    v.map_values(|t: OrchestratedTask| t@)
}

/// The ids of a list of tasks.
pub open spec fn task_ids(v: Seq<OrchestratedTask>) -> Seq<Seq<char>> {
    v.map_values(|t: OrchestratedTask| t@.task_id)
}

/// The tasks at positions `r` of `vm`.
pub open spec fn tasks_at(vm: Seq<PendingModel>, r: Seq<int>) -> Seq<TaskModel> {
    r.map_values(|k: int| vm[k].task)
}

/// The models of a ledger's entries.
pub open spec fn entry_views(v: Seq<PendingTask>) -> Seq<PendingModel> {
    v.map_values(|p: PendingTask| p@)
}

/// A ledger with distinct ids is the map `m` when both hold the same ids
/// and each entry is `m`'s value under its id.
proof fn lemma_ledger_ext(v: Seq<PendingTask>, m: Map<Seq<char>, PendingModel>)
    requires
        ids_of(v).no_duplicates(),
        forall|id: Seq<char>| #[trigger] m.contains_key(id) <==> ids_of(v).contains(id),
        forall|k: int| 0 <= k < v.len() ==> m[#[trigger] ids_of(v)[k]] == v[k]@,
    ensures
        ledger_map(v) == m,
{
    lemma_ledger_distinct(v);
    assert forall|id: Seq<char>| #[trigger] m.contains_key(id) implies ledger_map(v)[id] == m[id] by {
        let k = choose|k: int| 0 <= k < ids_of(v).len() && ids_of(v)[k] == id;
        assert(ledger_map(v)[ids_of(v)[k]] == v[k]@);
    }
    assert(ledger_map(v) =~= m);
}

impl SwarmOrchestrator {
    /// The ledger's entries have distinct task ids.
    pub closed spec fn wf(&self) -> bool {
        ids_of(self.active_tasks@).no_duplicates()
    }

    /// An empty ledger.
    pub fn new() -> (o: SwarmOrchestrator)
        ensures
            o.wf(),
            o@ == Map::<Seq<char>, PendingModel>::empty(),
    {
        let o = SwarmOrchestrator { active_tasks: Vec::new() };
        assert(ids_of(o.active_tasks@) =~= Seq::<Seq<char>>::empty());
        assert(o@ =~= Map::<Seq<char>, PendingModel>::empty());
        o
    }

    /// Index of the entry with id `id`, if there is one.
    fn position(&self, id: &str) -> (r: Option<usize>)
        ensures
            match r {
                Some(i) => i < self.active_tasks@.len() && ids_of(self.active_tasks@)[i as int]
                    == id@,
                None => !ids_of(self.active_tasks@).contains(id@),
            },
    {
        let mut i: usize = 0;
        while i < self.active_tasks.len()
            invariant
                i <= self.active_tasks@.len(),
                forall|k: int| 0 <= k < i ==> ids_of(self.active_tasks@)[k] != id@,
            decreases self.active_tasks@.len() - i,
        {
            if str_equal(self.active_tasks[i].task.task_id.as_str(), id) {
                return Some(i);
            }
            i += 1;
        }
        None
    }

    /// Record `p` under its task id, replacing an entry with that id.
    fn insert(&mut self, p: PendingTask)
        requires
            old(self).wf(),
        ensures
            final(self).wf(),
            final(self)@ == old(self)@.insert(p.task.task_id@, p@),
    {
        let ghost key = p.task.task_id@;
        let ghost pm = p@;
        let ghost v0 = self.active_tasks@;
        proof {
            lemma_ledger_distinct(v0);
        }
        match self.position(p.task.task_id.as_str()) {
            Some(i) => {
                self.active_tasks.set(i, p);
                proof {
                    let v1 = self.active_tasks@;
                    assert(ids_of(v1) =~= ids_of(v0));
                    let m = ledger_map(v0).insert(key, pm);
                    assert forall|id: Seq<char>| #[trigger] m.contains_key(id) <==> ids_of(
                        v1,
                    ).contains(id) by {
                        if id == key {
                            assert(ids_of(v1)[i as int] == key);
                        }
                    }
                    assert forall|k: int| 0 <= k < v1.len() implies m[#[trigger] ids_of(v1)[k]]
                        == v1[k]@ by {
                        if k != i {
                            assert(ids_of(v0)[k] != ids_of(v0)[i as int]);
                        }
                    }
                    lemma_ledger_ext(v1, m);
                }
            },
            None => {
                self.active_tasks.push(p);
                proof {
                    let v1 = self.active_tasks@;
                    assert(ids_of(v1) =~= ids_of(v0).push(key));
                    assert(ids_of(v1).no_duplicates()) by {
                        assert forall|a: int, b: int|
                            0 <= a < ids_of(v1).len() && 0 <= b < ids_of(v1).len() && a != b
                                implies ids_of(v1)[a] != ids_of(v1)[b] by {
                            if a == v0.len() as int {
                                assert(ids_of(v0)[b] == ids_of(v1)[b]);
                            } else if b == v0.len() as int {
                                assert(ids_of(v0)[a] == ids_of(v1)[a]);
                            }
                        }
                    }
                    let m = ledger_map(v0).insert(key, pm);
                    assert forall|id: Seq<char>| #[trigger] m.contains_key(id) <==> ids_of(
                        v1,
                    ).contains(id) by {
                        if ids_of(v0).contains(id) {
                            let k = choose|k: int| 0 <= k < ids_of(v0).len() && ids_of(v0)[k] == id;
                            assert(ids_of(v1)[k] == id);
                        }
                        if id == key {
                            assert(ids_of(v1)[v0.len() as int] == key);
                        }
                        if ids_of(v1).contains(id) && id != key {
                            let k = choose|k: int| 0 <= k < ids_of(v1).len() && ids_of(v1)[k] == id;
                            assert(ids_of(v0)[k] == id);
                        }
                    }
                    assert forall|k: int| 0 <= k < v1.len() implies m[#[trigger] ids_of(v1)[k]]
                        == v1[k]@ by {
                        if k < v0.len() {
                            assert(ids_of(v1)[k] == ids_of(v0)[k]);
                            assert(ids_of(v0).contains(ids_of(v0)[k]));
                        }
                    }
                    lemma_ledger_ext(v1, m);
                }
            },
        }
    }

    /// Split a directive into its sub-tasks and record each as pending from
    /// `now`, unassigned, with the standard timeout.
    pub fn fragment_directive(&mut self, now: u64) -> (tasks: Vec<OrchestratedTask>)
        requires
            old(self).wf(),
        ensures
            final(self).wf(),
            task_views(tasks@) == directive_tasks(),
            final(self)@ == with_tasks(old(self)@, directive_tasks(), now),
    {
        let mut tasks: Vec<OrchestratedTask> = Vec::new();
        tasks.push(
            OrchestratedTask {
                task_id: "T-01".to_owned(),
                instruction: "Scrape SEC Filings for target".to_owned(),
                payload: "https://sec.gov".to_owned(),
            },
        );
        tasks.push(
            OrchestratedTask {
                task_id: "T-02".to_owned(),
                instruction: "Run local LoRA Sentiment Analysis on scraped text".to_owned(),
                payload: "WAITING_ON_T-01".to_owned(),
            },
        );
        tasks.push(
            OrchestratedTask {
                task_id: "T-03".to_owned(),
                instruction: "Calculate NAS100 Systemic Risk Exposure".to_owned(),
                payload: "WAITING_ON_T-02".to_owned(),
            },
        );
        assert(task_views(tasks@) =~= directive_tasks());
        let ghost m0 = self@;
        assert(directive_tasks().take(0) =~= Seq::<TaskModel>::empty());
        let mut i: usize = 0;
        while i < tasks.len()
            invariant
                self.wf(),
                i <= tasks@.len(),
                task_views(tasks@) == directive_tasks(),
                self@ == with_tasks(m0, directive_tasks().take(i as int), now),
            decreases tasks@.len() - i,
        {
            let task = tasks[i].duplicate();
            proof {
                assert(directive_tasks().take(i + 1).drop_last() =~= directive_tasks().take(
                    i as int,
                ));
                assert(task@ == directive_tasks()[i as int]);
            }
            self.insert(
                PendingTask {
                    task,
                    assigned_worker: None,
                    dispatched_at: now,
                    timeout_secs: TASK_TIMEOUT_SECS,
                },
            );
            i += 1;
        }
        assert(directive_tasks().take(3) =~= directive_tasks());
        tasks
    }

    /// Forget the task a worker reported a result for.
    pub fn complete_task(&mut self, task_id: &str)
        requires
            old(self).wf(),
        ensures
            final(self).wf(),
            final(self)@ == old(self)@.remove(task_id@),
    {
        let ghost v0 = self.active_tasks@;
        proof {
            lemma_ledger_distinct(v0);
        }
        match self.position(task_id) {
            Some(i) => {
                self.active_tasks.remove(i);
                proof {
                    let v1 = self.active_tasks@;
                    assert(ids_of(v1) =~= ids_of(v0).remove(i as int));
                    assert(ids_of(v1).no_duplicates()) by {
                        assert forall|a: int, b: int|
                            0 <= a < ids_of(v1).len() && 0 <= b < ids_of(v1).len() && a != b
                                implies ids_of(v1)[a] != ids_of(v1)[b] by {
                            let a0 = if a < i { a } else { a + 1 };
                            let b0 = if b < i { b } else { b + 1 };
                            assert(ids_of(v1)[a] == ids_of(v0)[a0]);
                            assert(ids_of(v1)[b] == ids_of(v0)[b0]);
                        }
                    }
                    let m = ledger_map(v0).remove(task_id@);
                    assert forall|id: Seq<char>| #[trigger] m.contains_key(id) <==> ids_of(
                        v1,
                    ).contains(id) by {
                        if ids_of(v1).contains(id) {
                            let k = choose|k: int| 0 <= k < ids_of(v1).len() && ids_of(v1)[k] == id;
                            let k0 = if k < i { k } else { k + 1 };
                            assert(ids_of(v0)[k0] == id);
                            assert(ids_of(v0).contains(id));
                        }
                        if ids_of(v0).contains(id) && id != task_id@ {
                            let k = choose|k: int| 0 <= k < ids_of(v0).len() && ids_of(v0)[k] == id;
                            let k1 = if k < i { k } else { k - 1 };
                            assert(ids_of(v1)[k1] == id);
                        }
                    }
                    assert forall|k: int| 0 <= k < v1.len() implies m[#[trigger] ids_of(v1)[k]]
                        == v1[k]@ by {
                        let k0 = if k < i { k } else { k + 1 };
                        assert(ids_of(v1)[k] == ids_of(v0)[k0]);
                        assert(v1[k] == v0[k0]);
                        assert(ids_of(v0)[k0] != ids_of(v0)[i as int]);
                    }
                    lemma_ledger_ext(v1, m);
                }
            },
            None => {
                proof {
                    assert(self@ =~= self@.remove(task_id@));
                }
            },
        }
    }

    /// Reassign every task that has been out longer than its timeout at
    /// `now`: each is sent out again from `now` to no worker, and its task
    /// is returned to be dispatched once more.
    pub fn check_timeouts(&mut self, now: u64) -> (to_reassign: Vec<OrchestratedTask>)
        requires
            old(self).wf(),
        ensures
            final(self).wf(),
            final(self)@ == after_scan(old(self)@, now),
            forall|i: int|
                0 <= i < to_reassign@.len() ==> old(self)@.contains_key(
                    (#[trigger] to_reassign@[i])@.task_id,
                ) && overdue(old(self)@[to_reassign@[i]@.task_id], now) && to_reassign@[i]@ == old(
                    self,
                )@[to_reassign@[i]@.task_id].task,
            forall|id: Seq<char>|
                old(self)@.contains_key(id) && overdue(old(self)@[id], now) ==> exists|i: int|
                    0 <= i < to_reassign@.len() && (#[trigger] to_reassign@[i])@.task_id == id,
            task_ids(to_reassign@).no_duplicates(),
    {
        let ghost v0 = self.active_tasks@;
        let ghost vm = entry_views(v0);
        let mut out: Vec<OrchestratedTask> = Vec::new();
        let n = self.active_tasks.len();
        let mut i: usize = 0;
        while i < n
            invariant
                n == v0.len(),
                vm == entry_views(v0),
                i <= n,
                self.active_tasks@.len() == n,
                ids_of(self.active_tasks@) == ids_of(v0),
                forall|k: int|
                    0 <= k < n ==> (#[trigger] self.active_tasks@[k])@ == if k < i && overdue(
                        vm[k],
                        now,
                    ) {
                        redispatched(vm[k], now)
                    } else {
                        vm[k]
                    },
                task_views(out@) == tasks_at(vm, overdue_positions(vm, now, i as int)),
            decreases n - i,
        {
            let ghost a0 = self.active_tasks@;
            let p = &self.active_tasks[i];
            let elapsed = if now > p.dispatched_at {
                (now - p.dispatched_at) / NANOS_PER_SEC
            } else {
                0
            };
            let ghost out0 = out@;
            if elapsed > p.timeout_secs {
                let task = p.task.duplicate();
                let timeout = p.timeout_secs;
                out.push(task.duplicate());
                let replaced = PendingTask {
                    task,
                    assigned_worker: None,
                    dispatched_at: now,
                    timeout_secs: timeout,
                };
                self.active_tasks.set(i, replaced);
                proof {
                    assert(ids_of(self.active_tasks@) =~= ids_of(a0));
                    assert(overdue(vm[i as int], now));
                    assert(a0[i as int]@ == vm[i as int]);
                    let prev = overdue_positions(vm, now, i as int);
                    assert(overdue_positions(vm, now, i + 1) == prev.push(i as int));
                    assert(out@.len() == out0.len() + 1);
                    let lhs = task_views(out@);
                    let rhs = tasks_at(vm, overdue_positions(vm, now, i + 1));
                    let lhs0 = task_views(out0);
                    let rhs0 = tasks_at(vm, prev);
                    assert(lhs0 == rhs0);
                    assert(lhs0.len() == out0.len());
                    assert(rhs0.len() == prev.len());
                    assert(prev.len() == out0.len());
                    assert(rhs.len() == out@.len());
                    assert(lhs[out0.len() as int] == out@[out0.len() as int]@);
                    assert(rhs[out0.len() as int] == vm[i as int].task);
                    assert forall|a: int| 0 <= a < out@.len() implies #[trigger] lhs[a] == rhs[a] by {
                        if a < out0.len() {
                            assert(out@[a] == out0[a]);
                            assert(lhs0[a] == rhs0[a]);
                        }
                    }
                    assert(lhs =~= rhs);
                }
            } else {
                proof {
                    assert(!overdue(vm[i as int], now));
                    assert(overdue_positions(vm, now, i + 1) == overdue_positions(vm, now, i as int));
                }
            }
            i += 1;
        }
        proof {
            let v1 = self.active_tasks@;
            let m0 = ledger_map(v0);
            lemma_ledger_distinct(v0);
            lemma_overdue_positions(vm, now, n as int);
            let r = overdue_positions(vm, now, n as int);
            let m = after_scan(m0, now);
            assert forall|id: Seq<char>| #[trigger] m.contains_key(id) <==> ids_of(v1).contains(
                id,
            ) by {}
            assert forall|k: int| 0 <= k < v1.len() implies m[#[trigger] ids_of(v1)[k]] == v1[k]@ by {
                assert(ids_of(v1)[k] == ids_of(v0)[k]);
                assert(m0[ids_of(v0)[k]] == v0[k]@);
            }
            lemma_ledger_ext(v1, m);
            let outv = task_views(out@);
            assert forall|a: int| 0 <= a < out@.len() implies m0.contains_key(
                (#[trigger] out@[a])@.task_id,
            ) && overdue(m0[out@[a]@.task_id], now) && out@[a]@ == m0[out@[a]@.task_id].task by {
                assert(outv[a] == out@[a]@);
                assert(outv.len() == r.len());
                let k = r[a];
                assert(out@[a]@ == vm[k].task);
                assert(ids_of(v0)[k] == out@[a]@.task_id);
                assert(m0[ids_of(v0)[k]] == v0[k]@);
            }
            assert forall|id: Seq<char>| m0.contains_key(id) && overdue(m0[id], now) implies exists|
                a: int,
            | 0 <= a < out@.len() && (#[trigger] out@[a])@.task_id == id by {
                let k = choose|k: int| 0 <= k < ids_of(v0).len() && ids_of(v0)[k] == id;
                assert(m0[ids_of(v0)[k]] == v0[k]@);
                assert(overdue(vm[k], now));
                assert(r.contains(k));
                let a = choose|a: int| 0 <= a < r.len() && r[a] == k;
                assert(outv[a] == out@[a]@);
                assert(out@[a]@.task_id == id);
            }
            let ids_out = task_ids(out@);
            assert(ids_out.no_duplicates()) by {
                assert forall|a: int, b: int|
                    0 <= a < ids_out.len() && 0 <= b < ids_out.len() && a != b implies ids_out[a]
                    != ids_out[b] by {
                    assert(outv[a] == out@[a]@);
                    assert(outv[b] == out@[b]@);
                    assert(ids_out[a] == ids_of(v0)[r[a]]);
                    assert(ids_out[b] == ids_of(v0)[r[b]]);
                    if a < b {
                        assert(r[a] < r[b]);
                    } else {
                        assert(r[b] < r[a]);
                    }
                }
            }
        }
        out
    }
}

/// After a timeout scan at `now` no task is overdue at `now`, and the scan
/// keeps the set of pending tasks.
pub proof fn law_scan_clears_overdue(m: Map<Seq<char>, PendingModel>, now: u64)
    ensures
        forall|id: Seq<char>|
            #[trigger] after_scan(m, now).contains_key(id) ==> !overdue(after_scan(m, now)[id], now),
        after_scan(m, now).dom() == m.dom(),
{
    assert(after_scan(m, now).dom() =~= m.dom());
}

/// A task whose result came back is not reassigned by a later scan.
pub proof fn law_completed_never_reassigned(
    m: Map<Seq<char>, PendingModel>,
    task_id: Seq<char>,
    now: u64,
)
    ensures
        !after_scan(m.remove(task_id), now).contains_key(task_id),
{
}

/// A scan that finds nothing overdue leaves the ledger as it was.
pub proof fn law_scan_idle(m: Map<Seq<char>, PendingModel>, now: u64)
    requires
        forall|id: Seq<char>| #[trigger] m.contains_key(id) ==> !overdue(m[id], now),
    ensures
        after_scan(m, now) == m,
{
    assert(after_scan(m, now) =~= m);
}

} // verus!
