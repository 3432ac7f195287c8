//! Bookkeeping of long-running jobs: ids, progress counters and status.
use vstd::prelude::*;

verus! {

/// Where a job stands. `Complete` and `Failure` are terminal.
pub enum TaskStatus {
    Running,
    Complete,
    Failure(String),
}

/// Progress of one job.
pub struct TaskHandle {
    pub id: u64,
    pub items_total: u32,
    pub items_completed: u32,
    pub items_skipped: u32,
    pub status: TaskStatus,
}

/// The jobs of one node, in the order they were started.
pub struct TaskManager {
    pub tasks: Vec<TaskHandle>,
    pub next_id: u64,
}

/// One more, held at the largest value.
pub open spec fn bumped(n: u32) -> u32 {
    if n < u32::MAX {
        (n + 1) as u32
    } else {
        n
    }
}

impl TaskManager {
    /// Ids increase strictly in the order of the tasks, and all lie below the
    /// next one to be handed out.
    pub open spec fn wf(&self) -> bool {
        &&& forall|i: int, j: int| 0 <= i < j < self.tasks@.len() ==> self.tasks@[i].id < self.tasks@[j].id
        &&& forall|i: int| 0 <= i < self.tasks@.len() ==> self.tasks@[i].id < self.next_id
    }

    /// Index of the task with id `id`, where there is one.
    pub open spec fn position(&self, id: u64) -> Option<int> {
        if exists|i: int| 0 <= i < self.tasks@.len() && self.tasks@[i].id == id {
            Some(choose|i: int| 0 <= i < self.tasks@.len() && self.tasks@[i].id == id)
        } else {
            None
        }
    }

    pub fn new() -> (r: TaskManager)
        ensures
            r.wf(),
            r.tasks@.len() == 0,
            r.next_id == 0,
    {
        TaskManager { tasks: Vec::new(), next_id: 0 }
    }

    /// Registers a running job with `items_total` items and returns its id,
    /// the next unused one; `None` once every id has been handed out.
    pub fn start(&mut self, items_total: u32) -> (r: Option<u64>)
        requires
            old(self).wf(),
        ensures
            final(self).wf(),
            r is None <==> old(self).next_id == u64::MAX,
            r is None ==> final(self).tasks@ == old(self).tasks@ && final(self).next_id == old(self).next_id,
            r matches Some(id) ==> id == old(self).next_id && final(self).next_id == id + 1
                && final(self).tasks@.len() == old(self).tasks@.len() + 1
                && final(self).tasks@.subrange(0, old(self).tasks@.len() as int) == old(self).tasks@
                && final(self).tasks@.last().id == id
                && final(self).tasks@.last().items_total == items_total
                && final(self).tasks@.last().items_completed == 0
                && final(self).tasks@.last().items_skipped == 0
                && final(self).tasks@.last().status is Running,
    {
        if self.next_id == u64::MAX {
            return None;
        }
        let id = self.next_id;
        self.tasks.push(
            TaskHandle {
                id,
                items_total,
                items_completed: 0,
                items_skipped: 0,
                status: TaskStatus::Running,
            },
        );
        self.next_id = id + 1;
        assert(self.tasks@.subrange(0, old(self).tasks@.len() as int) =~= old(self).tasks@);
        Some(id)
    }

    /// Index of the task with id `id`.
    pub fn find(&self, id: u64) -> (r: Option<usize>)
        requires
            self.wf(),
        ensures
            r is None <==> self.position(id) is None,
            r matches Some(i) ==> self.position(id) == Some(i as int) && self.tasks@[i as int].id == id,
    {
        let mut i: usize = 0;
        while i < self.tasks.len()
            invariant
                self.wf(),
                i <= self.tasks@.len(),
                forall|j: int| 0 <= j < i ==> self.tasks@[j].id != id,
            decreases self.tasks@.len() - i,
        {
            if self.tasks[i].id == id {
                proof {
                    let k = choose|k: int| 0 <= k < self.tasks@.len() && self.tasks@[k].id == id;
                    assert(k == i as int) by {
                        if k < i {
                        } else if k > i {
                            assert(self.tasks@[i as int].id < self.tasks@[k].id);
                        }
                    }
                }
                return Some(i);
            }
            i += 1;
        }
        None
    }

    /// The task with id `id`.
    pub fn get(&self, id: u64) -> (r: Option<&TaskHandle>)
        requires
            self.wf(),
        ensures
            r is None <==> self.position(id) is None,
            r matches Some(t) ==> t.id == id && *t == self.tasks@[self.position(id)->Some_0],
    {
        match self.find(id) {
            None => None,
            Some(i) => Some(&self.tasks[i]),
        }
    }

    /// Ids of all tasks, in the order they were started.
    pub fn list(&self) -> (r: Vec<u64>)
        ensures
            r@.len() == self.tasks@.len(),
            forall|i: int| 0 <= i < r@.len() ==> r@[i] == self.tasks@[i].id,
    {
        let mut r: Vec<u64> = Vec::new();
        let mut i: usize = 0;
        while i < self.tasks.len()
            invariant
                i <= self.tasks@.len(),
                r@.len() == i,
                forall|j: int| 0 <= j < i ==> r@[j] == self.tasks@[j].id,
            decreases self.tasks@.len() - i,
        {
            r.push(self.tasks[i].id);
            i += 1;
        }
        r
    }

    /// Counts one item of task `id` as completed; false where there is no
    /// such task.
    pub fn record_completed(&mut self, id: u64) -> (r: bool)
        requires
            old(self).wf(),
        ensures
            final(self).wf(),
            final(self).next_id == old(self).next_id,
            r <==> old(self).position(id) is Some,
            !r ==> final(self).tasks@ == old(self).tasks@,
            r ==> final(self).tasks@ == old(self).tasks@.update(
                old(self).position(id)->Some_0,
                TaskHandle {
                    items_completed: bumped(old(self).tasks@[old(self).position(id)->Some_0].items_completed),
                    ..old(self).tasks@[old(self).position(id)->Some_0]
                },
            ),
    {
        match self.find(id) {
            None => false,
            Some(i) => {
                let c = self.tasks[i].items_completed;
                if c < u32::MAX {
                    self.tasks[i].items_completed = c + 1;
                }
                assert(self.tasks@ =~= old(self).tasks@.update(i as int, TaskHandle {
                    items_completed: bumped(c),
                    ..old(self).tasks@[i as int]
                }));
                true
            },
        }
    }

    /// Counts one item of task `id` as skipped; false where there is no such
    /// task.
    pub fn record_skipped(&mut self, id: u64) -> (r: bool)
        requires
            old(self).wf(),
        ensures
            final(self).wf(),
            final(self).next_id == old(self).next_id,
            r <==> old(self).position(id) is Some,
            !r ==> final(self).tasks@ == old(self).tasks@,
            r ==> final(self).tasks@ == old(self).tasks@.update(
                old(self).position(id)->Some_0,
                TaskHandle {
                    items_skipped: bumped(old(self).tasks@[old(self).position(id)->Some_0].items_skipped),
                    ..old(self).tasks@[old(self).position(id)->Some_0]
                },
            ),
    {
        match self.find(id) {
            None => false,
            Some(i) => {
                let c = self.tasks[i].items_skipped;
                if c < u32::MAX {
                    self.tasks[i].items_skipped = c + 1;
                }
                assert(self.tasks@ =~= old(self).tasks@.update(i as int, TaskHandle {
                    items_skipped: bumped(c),
                    ..old(self).tasks@[i as int]
                }));
                true
            },
        }
    }

    /// Moves task `id` from `Running` to `status`. A terminal status stays:
    /// the call then changes nothing and returns false, as it does where
    /// there is no such task.
    pub fn set_status(&mut self, id: u64, status: TaskStatus) -> (r: bool)
        requires
            old(self).wf(),
        ensures
            final(self).wf(),
            final(self).next_id == old(self).next_id,
            r <==> old(self).position(id) is Some && old(self).tasks@[old(self).position(id)->Some_0].status is Running,
            !r ==> final(self).tasks@ == old(self).tasks@,
            r ==> final(self).tasks@ == old(self).tasks@.update(
                old(self).position(id)->Some_0,
                TaskHandle { status, ..old(self).tasks@[old(self).position(id)->Some_0] },
            ),
    {
        match self.find(id) {
            None => false,
            Some(i) => {
                let running = match self.tasks[i].status {
                    TaskStatus::Running => true,
                    _ => false,
                };
                if !running {
                    return false;
                }
                let ghost st = status;
                self.tasks[i].status = status;
                assert(self.tasks@ =~= old(self).tasks@.update(i as int, TaskHandle {
                    status: st,
                    ..old(self).tasks@[i as int]
                }));
                true
            },
        }
    }
}

/// The tasks that eviction keeps: every running task, and the `keep` most
/// recently started terminal ones, in their order.
pub open spec fn retained(s: Seq<TaskHandle>, keep: nat) -> Seq<TaskHandle>
    decreases s.len(),
{
    if s.len() == 0 {
        s
    } else if s.last().status is Running {
        retained(s.drop_last(), keep).push(s.last())
    } else if keep > 0 {
        retained(s.drop_last(), (keep - 1) as nat).push(s.last())
    } else {
        retained(s.drop_last(), keep)
    }
}

proof fn lemma_retained_from(s: Seq<TaskHandle>, keep: nat)
    ensures
        retained(s, keep).len() <= s.len(),
        forall|x: int| 0 <= x < retained(s, keep).len() ==> exists|i: int| 0 <= i < s.len() && s[i] == #[trigger] retained(s, keep)[x],
        (forall|i: int, j: int| 0 <= i < j < s.len() ==> s[i].id < s[j].id) ==> forall|a: int, b: int|
            0 <= a < b < retained(s, keep).len() ==> retained(s, keep)[a].id < retained(s, keep)[b].id,
    decreases s.len(),
{
    if s.len() > 0 {
        let p = s.drop_last();
        let k2: nat = if s.last().status is Running { keep } else if keep > 0 { (keep - 1) as nat } else { keep };
        lemma_retained_from(p, k2);
        let r = retained(s, keep);
        let rp = retained(p, k2);
        assert forall|x: int| 0 <= x < r.len() implies exists|i: int| 0 <= i < s.len() && s[i] == #[trigger] r[x] by {
            if x < rp.len() {
                let i = choose|i: int| 0 <= i < p.len() && p[i] == #[trigger] rp[x];
                assert(s[i] == r[x]);
            } else {
                assert(s[s.len() - 1] == r[x]);
            }
        }
        if forall|i: int, j: int| 0 <= i < j < s.len() ==> s[i].id < s[j].id {
            assert forall|a: int, b: int| 0 <= a < b < r.len() implies r[a].id < r[b].id by {
                assert(forall|i: int, j: int| 0 <= i < j < p.len() ==> p[i].id < p[j].id);
                if b >= rp.len() {
                    let i = choose|i: int| 0 <= i < p.len() && p[i] == #[trigger] rp[a];
                    assert(s[i] == r[a]);
                }
            }
        }
    }
}

impl TaskManager {
    /// Evicts terminal tasks: every running task stays, and of the terminal
    /// ones only the `keep` most recently started.
    pub fn evict_terminal(&mut self, keep: usize)
        requires
            old(self).wf(),
        ensures
            final(self).wf(),
            final(self).next_id == old(self).next_id,
            final(self).tasks@ == retained(old(self).tasks@, keep as nat),
    {
        let ghost orig = self.tasks@;
        let mut left: usize = keep;
        let mut kept_rev: Vec<TaskHandle> = Vec::new();
        let ghost mut suffix: Seq<TaskHandle> = Seq::empty();
        while self.tasks.len() > 0
            invariant
                orig == old(self).tasks@,
                self.next_id == old(self).next_id,
                retained(orig, keep as nat) == retained(self.tasks@, left as nat) + suffix,
                kept_rev@.len() == suffix.len(),
                forall|i: int| 0 <= i < suffix.len() ==> kept_rev@[i] == suffix[suffix.len() - 1 - i],
            decreases self.tasks@.len(),
        {
            let ghost before = self.tasks@;
            let t = self.tasks.pop().unwrap();
            proof {
                assert(before.drop_last() == self.tasks@);
                assert(before.last() == t);
            }
            let running = match t.status {
                TaskStatus::Running => true,
                _ => false,
            };
            if running || left > 0 {
                let ghost rest = retained(self.tasks@, (if running { left } else { (left - 1) as usize }) as nat);
                proof {
                    assert(retained(before, left as nat) == rest.push(t));
                    assert(rest.push(t) + suffix =~= rest + (seq![t] + suffix));
                    suffix = seq![t] + suffix;
                }
                if !running {
                    left = left - 1;
                }
                kept_rev.push(t);
            }
        }
        proof {
            assert(retained(self.tasks@, left as nat) =~= Seq::<TaskHandle>::empty());
            assert(retained(orig, keep as nat) =~= suffix);
        }
        while kept_rev.len() > 0
            invariant
                orig == old(self).tasks@,
                self.next_id == old(self).next_id,
                retained(orig, keep as nat) == suffix,
                kept_rev@.len() <= suffix.len(),
                self.tasks@ == suffix.take(suffix.len() - kept_rev@.len()),
                forall|i: int| 0 <= i < kept_rev@.len() ==> kept_rev@[i] == suffix[suffix.len() - 1 - i],
            decreases kept_rev@.len(),
        {
            let ghost n = kept_rev@.len();
            let t = kept_rev.pop().unwrap();
            proof {
                assert(t == suffix[suffix.len() - n]);
            }
            self.tasks.push(t);
            proof {
                assert(self.tasks@ =~= suffix.take(suffix.len() - kept_rev@.len()));
            }
        }
        proof {
            assert(self.tasks@ =~= suffix);
            lemma_retained_from(orig, keep as nat);
            assert forall|i: int| 0 <= i < self.tasks@.len() implies self.tasks@[i].id < self.next_id by {
                let j = choose|j: int| 0 <= j < orig.len() && orig[j] == #[trigger] retained(orig, keep as nat)[i];
            }
        }
    }
}

} // verus!
