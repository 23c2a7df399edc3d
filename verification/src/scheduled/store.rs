//! The table of scheduled tasks and their runs. What is derived from a cron
//! expression, the cadence label and the next run, is computed when a task is
//! read and never stored.
use vstd::prelude::*;
use vstd::string::*;
use crate::scheduled::cron;
use crate::scheduled::task;
use crate::scheduled::task::{
    status_to_text,
    CreateScheduledTaskInput,
    RunOutcome,
    RunRecord,
    RunStatus,
    ScheduledTask,
    TaskRow,
};
use crate::seqs;
use crate::text;
use crate::text::{copy_opt, same_text};

verus! {

/// A built-in task cannot be deleted.
#[derive(Debug, PartialEq, Eq, Clone, Copy)]
pub struct DeleteBuiltinError;

impl DeleteBuiltinError {
    /// What went wrong, in words.
    pub fn message(&self) -> (r: String)
        ensures
            r@ == "built-in tasks cannot be deleted"@,
    {
        "built-in tasks cannot be deleted".to_owned()
    }
}

/// All tasks and their runs.
pub struct ScheduledStore {
    /// The tasks, newest first.
    pub tasks: Vec<TaskRow>,
    /// The runs, in the order in which they were recorded.
    pub runs: Vec<RunRecord>,
    /// The highest number that a run was given.
    pub last_run_id: i64,
}

/// Whether a task of that id is there.
pub open spec fn has_task(tasks: Seq<TaskRow>, id: Seq<char>) -> bool {
    exists|i: int| 0 <= i < tasks.len() && (#[trigger] tasks[i]).id@ == id
}

/// The place of the task of that id.
pub open spec fn task_place(tasks: Seq<TaskRow>, id: Seq<char>) -> int {
    choose|i: int| 0 <= i < tasks.len() && (#[trigger] tasks[i]).id@ == id
}

/// The number of tasks, from the first, that are at least as new as `created_ms`.
pub open spec fn newer_count(tasks: Seq<TaskRow>, created_ms: i64) -> nat
    decreases tasks.len(),
{
    if tasks.len() > 0 && tasks[0].created_ms >= created_ms {
        1 + newer_count(tasks.skip(1), created_ms)
    } else {
        0
    }
}

/// The row of a new task.
pub open spec fn new_row(id: String, input: CreateScheduledTaskInput, now_ms: i64) -> TaskRow {
    TaskRow {
        id,
        name: input.name,
        cron: input.cron,
        kind: input.kind,
        workspace: input.workspace,
        profile: input.profile,
        safety_ceiling: input.safety_ceiling,
        paused: false,
        last_run: None,
        created_ms: now_ms,
    }
}

/// Whether `t` shows the task of a row, as it is at `now_ms`.
pub open spec fn shows(t: ScheduledTask, row: TaskRow, now_ms: i64) -> bool {
    &&& t.id == row.id
    &&& t.name == row.name
    &&& t.cron == row.cron
    &&& t.kind == row.kind
    &&& t.workspace == row.workspace
    &&& t.profile == row.profile
    &&& t.safety_ceiling == row.safety_ceiling
    &&& t.paused == row.paused
    &&& t.last_run == row.last_run
    &&& t.next_run matches Some(at) ==> now_ms < at
    &&& cron::cron_fault(row.cron@) is Some ==> t.cadence_label@ == row.cron@ && t.next_run is None
    &&& cron::cron_fault(row.cron@) is None ==> cron::follows(row.cron@, now_ms, t.next_run)
        && cron::labels(row.cron@, now_ms, t.cadence_label@)
}

/// Whether `ts` shows the tasks of the rows, one for one.
pub open spec fn shows_all(ts: Seq<ScheduledTask>, rows: Seq<TaskRow>, now_ms: i64) -> bool {
    ts.len() == rows.len() && forall|i: int|
        0 <= i < ts.len() ==> shows(#[trigger] ts[i], rows[i], now_ms)
}

/// Whether a task whose most recent occurrence is `prev` is due: it is not
/// paused and has not fired since. One that never fired is due for any past
/// occurrence.
pub open spec fn due(row: TaskRow, prev: Option<i64>) -> bool {
    !row.paused && match prev {
        Some(p) => match row.last_run {
            Some(last) => p > last,
            None => true,
        },
        None => false,
    }
}

/// Whether `prevs` are the most recent occurrences that were found of the tasks
/// at `now_ms`: of each expression that can be read what its schedule gave, and
/// none of the others.
pub open spec fn past_occurrences(
    tasks: Seq<TaskRow>,
    prevs: Seq<Option<i64>>,
    now_ms: i64,
) -> bool {
    prevs.len() == tasks.len() && forall|i: int|
        0 <= i < prevs.len() ==> past_occurrence(tasks[i], #[trigger] prevs[i], now_ms)
}

/// Whether `prev` is the most recent occurrence that was found of a task.
pub open spec fn past_occurrence(row: TaskRow, prev: Option<i64>, now_ms: i64) -> bool {
    &&& prev matches Some(p) ==> p <= now_ms
    &&& cron::cron_fault(row.cron@) is Some ==> prev is None
    &&& cron::cron_fault(row.cron@) is None ==> cron::precedes(row.cron@, now_ms, prev)
}

/// Those of the first `n` tasks that are due.
pub open spec fn due_rows(tasks: Seq<TaskRow>, prevs: Seq<Option<i64>>, n: int) -> Seq<TaskRow>
    decreases n,
{
    if n <= 0 {
        Seq::empty()
    } else if due(tasks[n - 1], prevs[n - 1]) {
        due_rows(tasks, prevs, n - 1).push(tasks[n - 1])
    } else {
        due_rows(tasks, prevs, n - 1)
    }
}

/// The stored texts of how the runs of a task ended.
pub open spec fn statuses(runs: Seq<RunRecord>) -> Seq<Seq<char>> {
    Seq::new(runs.len(), |i: int| task::status_text(runs[i].status))
}

/// Whether a run belongs to a task.
pub open spec fn of_task(id: Seq<char>) -> spec_fn(RunRecord) -> bool {
    |r: RunRecord| r.task_id@ == id
}

/// Whether a run belongs to another task.
pub open spec fn of_others(id: Seq<char>) -> spec_fn(RunRecord) -> bool {
    |r: RunRecord| r.task_id@ != id
}

/// The runs of a task.
pub open spec fn runs_of(runs: Seq<RunRecord>, id: Seq<char>) -> Seq<RunRecord> {
    runs.filter(of_task(id))
}

/// The runs of other tasks.
pub open spec fn other_runs(runs: Seq<RunRecord>, id: Seq<char>) -> Seq<RunRecord> {
    runs.filter(of_others(id))
}

/// Whether a task is due, given its most recent occurrence.
pub fn is_due(row: &TaskRow, prev: Option<i64>) -> (r: bool)
    ensures
        r == due(*row, prev),
{
    if row.paused {
        return false;
    }
    match prev {
        Some(p) => match row.last_run {
            Some(last) => p > last,
            None => true,
        },
        None => false,
    }
}

/// A task as it is shown at `now_ms`.
fn show(row: &TaskRow, now_ms: i64) -> (r: ScheduledTask)
    requires
        cron::in_calendar(now_ms as int),
    ensures
        shows(r, *row, now_ms),
{
    let next_run: Option<i64> = match cron::parse(row.cron.as_str()) {
        Ok(s) => cron::next_run(&s, now_ms),
        Err(_) => None,
    };
    ScheduledTask {
        id: row.id.clone(),
        name: row.name.clone(),
        cadence_label: cron::cadence_label(row.cron.as_str(), now_ms),
        cron: row.cron.clone(),
        kind: row.kind.clone(),
        workspace: copy_opt(&row.workspace),
        profile: copy_opt(&row.profile),
        safety_ceiling: row.safety_ceiling,
        paused: row.paused,
        next_run,
        last_run: row.last_run,
    }
}

impl ScheduledStore {
    /// Whether the tasks have distinct ids and stand newest first, and the runs
    /// are numbered upwards and belong to tasks that are there.
    pub open spec fn wf(&self) -> bool {
        &&& forall|i: int, j: int|
            #![trigger self.tasks@[i], self.tasks@[j]]
            0 <= i < j < self.tasks@.len() ==> self.tasks@[i].id@ != self.tasks@[j].id@
                && self.tasks@[i].created_ms >= self.tasks@[j].created_ms
        &&& forall|k: int|
            0 <= k < self.runs@.len() ==> has_task(
                self.tasks@,
                (#[trigger] self.runs@[k]).task_id@,
            ) && self.runs@[k].id <= self.last_run_id
        &&& forall|j: int, k: int|
            #![trigger self.runs@[j], self.runs@[k]]
            0 <= j < k < self.runs@.len() ==> self.runs@[j].id < self.runs@[k].id
    }

    /// A store without tasks.
    pub fn new() -> (r: Self)
        ensures
            r.wf(),
            r.tasks@ == Seq::<TaskRow>::empty(),
            r.runs@ == Seq::<RunRecord>::empty(),
            r.last_run_id == 0,
    {
        ScheduledStore { tasks: Vec::new(), runs: Vec::new(), last_run_id: 0 }
    }

    /// The place of the task of that id.
    fn find(&self, id: &str) -> (r: Option<usize>)
        requires
            self.wf(),
        ensures
            match r {
                Some(i) => i < self.tasks@.len() && self.tasks@[i as int].id@ == id@ && i
                    == task_place(self.tasks@, id@) && has_task(self.tasks@, id@),
                None => !has_task(self.tasks@, id@),
            },
    {
        let mut i: usize = 0;
        while i < self.tasks.len()
            invariant
                self.wf(),
                i <= self.tasks@.len(),
                forall|j: int| 0 <= j < i ==> (#[trigger] self.tasks@[j]).id@ != id@,
            decreases self.tasks@.len() - i,
        {
            if same_text(self.tasks[i].id.as_str(), id) {
                proof {
                    let p = task_place(self.tasks@, id@);
                    assert(self.tasks@[i as int].id@ == id@);
                    assert(0 <= p < self.tasks@.len() && self.tasks@[p].id@ == id@);
                }
                return Some(i);
            }
            i = i + 1;
        }
        None
    }

    /// Puts a task among the others, behind those that are at least as new.
    pub fn insert_task(&mut self, row: TaskRow)
        requires
            old(self).wf(),
            !has_task(old(self).tasks@, row.id@),
        ensures
            final(self).wf(),
            newer_count(old(self).tasks@, row.created_ms) <= old(self).tasks@.len(),
            final(self).tasks@ == old(self).tasks@.insert(
                newer_count(old(self).tasks@, row.created_ms) as int,
                row,
            ),
            final(self).runs@ == old(self).runs@,
            final(self).last_run_id == old(self).last_run_id,
    {
        let ghost before = self.tasks@;
        let mut i: usize = 0;
        proof {
            assert(before.skip(0) =~= before);
        }
        while i < self.tasks.len() && self.tasks[i].created_ms >= row.created_ms
            invariant
                i <= before.len(),
                self.tasks@ == before,
                newer_count(before, row.created_ms) == i + newer_count(
                    before.skip(i as int),
                    row.created_ms,
                ),
                forall|j: int| 0 <= j < i ==> (#[trigger] before[j]).created_ms >= row.created_ms,
            decreases before.len() - i,
        {
            proof {
                assert(before.skip(i as int)[0] == before[i as int]);
                assert(before.skip(i as int).skip(1) =~= before.skip(i + 1));
            }
            i = i + 1;
        }
        proof {
            if i < before.len() {
                assert(before.skip(i as int)[0] == before[i as int]);
            }
            assert(newer_count(before, row.created_ms) == i);
        }
        self.tasks.insert(i, row);
        proof {
            let after = self.tasks@;
            assert forall|a: int, b: int|
                #![trigger after[a], after[b]]
                0 <= a < b < after.len() implies after[a].id@ != after[b].id@
                && after[a].created_ms >= after[b].created_ms by {
                let x = if a < i {
                    a
                } else {
                    a - 1
                };
                let y = if b < i {
                    b
                } else {
                    b - 1
                };
                if a == i {
                    assert(after[b] == before[y]);
                    if i < before.len() && i < y {
                        assert(before[i as int].created_ms >= before[y].created_ms);
                    }
                } else if b == i {
                    assert(after[a] == before[x]);
                } else {
                    assert(after[a] == before[x]);
                    assert(after[b] == before[y]);
                    assert(before[x].id@ != before[y].id@);
                }
            }
            assert forall|id: Seq<char>| has_task(before, id) implies has_task(after, id) by {
                let p = task_place(before, id);
                assert(before[p].id@ == id);
                if p < i {
                    assert(after[p] == before[p]);
                } else {
                    assert(after[p + 1] == before[p]);
                }
            }
        }
    }

    /// Adds a task under a new id, once its cron expression has been read.
    pub fn create(
        &mut self,
        id: String,
        input: CreateScheduledTaskInput,
        now_ms: i64,
    ) -> (r: Result<ScheduledTask, String>)
        requires
            old(self).wf(),
            cron::in_calendar(now_ms as int),
        ensures
            final(self).wf(),
            final(self).runs@ == old(self).runs@,
            final(self).last_run_id == old(self).last_run_id,
            match r {
                Ok(t) => {
                    &&& cron::cron_fault(input.cron@) is None
                    &&& !has_task(old(self).tasks@, id@)
                    &&& final(self).tasks@ == old(self).tasks@.insert(
                        newer_count(old(self).tasks@, now_ms) as int,
                        new_row(id, input, now_ms),
                    )
                    &&& shows(t, new_row(id, input, now_ms), now_ms)
                },
                Err(e) => {
                    &&& final(self).tasks@ == old(self).tasks@
                    &&& match cron::cron_fault(input.cron@) {
                        Some(why) => e@ == "invalid cron expression: "@ + why,
                        None => has_task(old(self).tasks@, id@) && e@
                            == "insert scheduled task: UNIQUE constraint failed: scheduled_tasks.id"@,
                    }
                },
            },
    {
        if let Err(e) = cron::parse(input.cron.as_str()) {
            return Err(e);
        }
        if let Some(_) = self.find(id.as_str()) {
            return Err(
                "insert scheduled task: UNIQUE constraint failed: scheduled_tasks.id".to_owned(),
            );
        }
        let row = TaskRow {
            id,
            name: input.name,
            cron: input.cron,
            kind: input.kind,
            workspace: input.workspace,
            profile: input.profile,
            safety_ceiling: input.safety_ceiling,
            paused: false,
            last_run: None,
            created_ms: now_ms,
        };
        let t: ScheduledTask = show(&row, now_ms);
        self.insert_task(row);
        Ok(t)
    }

    /// All tasks, newest first.
    pub fn list(&self, now_ms: i64) -> (r: Vec<ScheduledTask>)
        requires
            self.wf(),
            cron::in_calendar(now_ms as int),
        ensures
            shows_all(r@, self.tasks@, now_ms),
    {
        let mut out: Vec<ScheduledTask> = Vec::new();
        let mut i: usize = 0;
        while i < self.tasks.len()
            invariant
                i <= self.tasks@.len(),
                cron::in_calendar(now_ms as int),
                out@.len() == i,
                forall|j: int|
                    0 <= j < i ==> shows(#[trigger] out@[j], self.tasks@[j], now_ms),
            decreases self.tasks@.len() - i,
        {
            let t: ScheduledTask = show(&self.tasks[i], now_ms);
            out.push(t);
            i = i + 1;
        }
        out
    }

    /// The task of that id.
    pub fn get(&self, id: &str, now_ms: i64) -> (r: Option<ScheduledTask>)
        requires
            self.wf(),
            cron::in_calendar(now_ms as int),
        ensures
            match r {
                Some(t) => has_task(self.tasks@, id@) && shows(
                    t,
                    self.tasks@[task_place(self.tasks@, id@)],
                    now_ms,
                ),
                None => !has_task(self.tasks@, id@),
            },
    {
        match self.find(id) {
            Some(i) => Some(show(&self.tasks[i], now_ms)),
            None => None,
        }
    }

    /// Puts a row in the place of the row of the same id and age.
    fn replace_row(&mut self, i: usize, row: TaskRow)
        requires
            old(self).wf(),
            i < old(self).tasks@.len(),
            row.id == old(self).tasks@[i as int].id,
            row.created_ms == old(self).tasks@[i as int].created_ms,
        ensures
            final(self).wf(),
            final(self).tasks@ == old(self).tasks@.update(i as int, row),
            final(self).runs@ == old(self).runs@,
            final(self).last_run_id == old(self).last_run_id,
    {
        let ghost before = self.tasks@;
        self.tasks.set(i, row);
        proof {
            assert forall|id: Seq<char>| has_task(before, id) implies has_task(self.tasks@, id) by {
                let p = task_place(before, id);
                assert(self.tasks@[p].id@ == id);
            }
        }
    }

    /// A copy of a row.
    fn copy_row(&self, i: usize) -> (r: TaskRow)
        requires
            i < self.tasks@.len(),
        ensures
            r == self.tasks@[i as int],
    {
        let row = &self.tasks[i];
        TaskRow {
            id: row.id.clone(),
            name: row.name.clone(),
            cron: row.cron.clone(),
            kind: row.kind.clone(),
            workspace: copy_opt(&row.workspace),
            profile: copy_opt(&row.profile),
            safety_ceiling: row.safety_ceiling,
            paused: row.paused,
            last_run: row.last_run,
            created_ms: row.created_ms,
        }
    }

    /// Pauses a task, or resumes it; gives the task as it is afterwards.
    pub fn toggle_paused(&mut self, id: &str, now_ms: i64) -> (r: Option<ScheduledTask>)
        requires
            old(self).wf(),
            cron::in_calendar(now_ms as int),
        ensures
            final(self).wf(),
            final(self).runs@ == old(self).runs@,
            final(self).last_run_id == old(self).last_run_id,
            match r {
                Some(t) => {
                    let i = task_place(old(self).tasks@, id@);
                    &&& has_task(old(self).tasks@, id@)
                    &&& final(self).tasks@ == toggled(old(self).tasks@, i)
                    &&& shows(t, final(self).tasks@[i], now_ms)
                },
                None => !has_task(old(self).tasks@, id@) && final(self).tasks@ == old(self).tasks@,
            },
    {
        match self.find(id) {
            Some(i) => {
                let mut row: TaskRow = self.copy_row(i);
                row.paused = !row.paused;
                let t: ScheduledTask = show(&row, now_ms);
                self.replace_row(i, row);
                Some(t)
            },
            None => None,
        }
    }

    /// Deletes a task and its runs. A built-in task is refused; an unknown one
    /// is none.
    pub fn delete(&mut self, id: &str) -> (r: Result<bool, DeleteBuiltinError>)
        requires
            old(self).wf(),
        ensures
            final(self).wf(),
            final(self).last_run_id == old(self).last_run_id,
            match r {
                Ok(true) => {
                    let i = task_place(old(self).tasks@, id@);
                    &&& has_task(old(self).tasks@, id@)
                    &&& old(self).tasks@[i].kind is Prompt
                    &&& final(self).tasks@ == old(self).tasks@.remove(i)
                    &&& final(self).runs@ == other_runs(old(self).runs@, id@)
                },
                Ok(false) => !has_task(old(self).tasks@, id@) && *final(self) == *old(self),
                Err(_) => has_task(old(self).tasks@, id@) && old(self).tasks@[task_place(
                    old(self).tasks@,
                    id@,
                )].kind is Builtin && *final(self) == *old(self),
            },
    {
        let i: usize = match self.find(id) {
            Some(i) => i,
            None => {
                return Ok(false);
            },
        };
        if self.tasks[i].kind.is_builtin() {
            return Err(DeleteBuiltinError);
        }
        let ghost tasks = self.tasks@;
        let ghost all = self.runs@;
        let ghost others = of_others(id@);
        let mut kept: Vec<RunRecord> = Vec::new();
        let mut k: usize = 0;
        proof {
            reveal(Seq::filter);
            assert(all.take(0).filter(others) =~= Seq::<RunRecord>::empty());
        }
        while k < self.runs.len()
            invariant
                k <= all.len(),
                self.runs@ == all,
                others == of_others(id@),
                kept@ == all.take(k as int).filter(others),
            decreases all.len() - k,
        {
            proof {
                seqs::lemma_filter_take(all, others, k as int);
            }
            if !same_text(self.runs[k].task_id.as_str(), id) {
                kept.push(self.runs[k].clone());
            }
            k = k + 1;
        }
        proof {
            assert(all.take(k as int) =~= all);
        }
        self.tasks.remove(i);
        self.runs = kept;
        proof {
            let after = self.tasks@;
            assert(after =~= tasks.remove(i as int));
            assert forall|a: int, b: int|
                #![trigger after[a], after[b]]
                0 <= a < b < after.len() implies after[a].id@ != after[b].id@
                && after[a].created_ms >= after[b].created_ms by {
                let x = if a < i {
                    a
                } else {
                    a + 1
                };
                let y = if b < i {
                    b
                } else {
                    b + 1
                };
                assert(after[a] == tasks[x] && after[b] == tasks[y]);
            }
            lemma_kept_runs(*old(self), id@, i as int);
        }
        Ok(true)
    }

    /// Keeps when a task last fired. An unknown task is passed over.
    pub fn stamp_last_run(&mut self, id: &str, fired_ms: i64)
        requires
            old(self).wf(),
        ensures
            final(self).wf(),
            final(self).runs@ == old(self).runs@,
            final(self).last_run_id == old(self).last_run_id,
            !has_task(old(self).tasks@, id@) ==> final(self).tasks@ == old(self).tasks@,
            has_task(old(self).tasks@, id@) ==> final(self).tasks@ == stamped(
                old(self).tasks@,
                task_place(old(self).tasks@, id@),
                fired_ms,
            ),
    {
        if let Some(i) = self.find(id) {
            let mut row: TaskRow = self.copy_row(i);
            row.last_run = Some(fired_ms);
            self.replace_row(i, row);
        }
    }

    /// Records a run of a task under the next number.
    pub fn append_run(
        &mut self,
        task_id: &str,
        session_id: Option<String>,
        status: RunStatus,
        now_ms: i64,
    ) -> (r: RunRecord)
        requires
            old(self).wf(),
            has_task(old(self).tasks@, task_id@),
            old(self).last_run_id < i64::MAX,
        ensures
            final(self).wf(),
            final(self).tasks@ == old(self).tasks@,
            final(self).last_run_id == old(self).last_run_id + 1,
            final(self).runs@ == old(self).runs@.push(r),
            r.id == old(self).last_run_id + 1,
            r.task_id@ == task_id@,
            r.session_id == session_id,
            r.fired_ms == now_ms,
            r.status == status,
    {
        self.last_run_id = self.last_run_id + 1;
        let record = RunRecord {
            id: self.last_run_id,
            task_id: task_id.to_owned(),
            session_id,
            fired_ms: now_ms,
            status,
        };
        self.runs.push(record.clone());
        record
    }

    /// How the runs of a task ended, as it is stored, in the order of the runs.
    pub fn run_statuses(&self, task_id: &str) -> (r: Vec<String>)
        ensures
            text::views(r@) == statuses(runs_of(self.runs@, task_id@)),
    {
        let ghost all = self.runs@;
        let ghost own = of_task(task_id@);
        let mut out: Vec<String> = Vec::new();
        let mut k: usize = 0;
        proof {
            reveal(Seq::filter);
            assert(text::views(out@) =~= statuses(all.take(0).filter(own)));
        }
        while k < self.runs.len()
            invariant
                k <= all.len(),
                self.runs@ == all,
                own == of_task(task_id@),
                text::views(out@) == statuses(all.take(k as int).filter(own)),
            decreases all.len() - k,
        {
            proof {
                seqs::lemma_filter_take(all, own, k as int);
            }
            if same_text(self.runs[k].task_id.as_str(), task_id) {
                let ghost before = text::views(out@);
                let ghost upto = all.take(k as int).filter(own);
                out.push(status_to_text(self.runs[k].status).to_owned());
                proof {
                    let s = task::status_text(all[k as int].status);
                    assert(text::views(out@) =~= before.push(s));
                    assert(statuses(upto.push(all[k as int])) =~= statuses(upto).push(s));
                }
            }
            k = k + 1;
        }
        proof {
            assert(all.take(k as int) =~= all);
        }
        out
    }

    /// The tasks that are due at `now_ms`, newest first: those that are not
    /// paused and whose most recent occurrence is later than their last run.
    pub fn due_tasks(&self, now_ms: i64) -> (r: Vec<ScheduledTask>)
        requires
            self.wf(),
            cron::in_calendar(now_ms as int),
            now_ms + 1000 <= cron::LAST_INSTANT_MS,
        ensures
            exists|prevs: Seq<Option<i64>>| #[trigger]
                past_occurrences(self.tasks@, prevs, now_ms) && shows_all(
                    r@,
                    due_rows(self.tasks@, prevs, self.tasks@.len() as int),
                    now_ms,
                ),
    {
        let ghost tasks = self.tasks@;
        let ghost mut prevs: Seq<Option<i64>> = Seq::empty();
        let mut out: Vec<ScheduledTask> = Vec::new();
        let mut i: usize = 0;
        while i < self.tasks.len()
            invariant
                i <= tasks.len(),
                self.tasks@ == tasks,
                cron::in_calendar(now_ms as int),
                now_ms + 1000 <= cron::LAST_INSTANT_MS,
                prevs.len() == i,
                forall|j: int|
                    0 <= j < i ==> past_occurrence(tasks[j], #[trigger] prevs[j], now_ms),
                shows_all(out@, due_rows(tasks, prevs, i as int), now_ms),
            decreases tasks.len() - i,
        {
            let prev: Option<i64> = match cron::parse(self.tasks[i].cron.as_str()) {
                Ok(s) => cron::prev_occurrence(&s, now_ms),
                Err(_) => None,
            };
            let ghost earlier = prevs;
            proof {
                prevs = prevs.push(prev);
                lemma_due_rows_prefix(tasks, earlier, prevs, i as int);
                assert(prevs[i as int] == prev);
            }
            if is_due(&self.tasks[i], prev) {
                let t: ScheduledTask = show(&self.tasks[i], now_ms);
                out.push(t);
            }
            i = i + 1;
        }
        proof {
            assert(past_occurrences(tasks, prevs, now_ms));
        }
        out
    }

    /// Records what came of firing a task at `fired_ms`, and stamps the task.
    /// Without an outcome the firing broke down, which counts as a failed run
    /// without a session.
    pub fn settle_fire(
        &mut self,
        task_id: &str,
        outcome: Option<RunOutcome>,
        fired_ms: i64,
        now_ms: i64,
    ) -> (r: RunRecord)
        requires
            old(self).wf(),
            has_task(old(self).tasks@, task_id@),
            old(self).last_run_id < i64::MAX,
        ensures
            final(self).wf(),
            final(self).tasks@ == stamped(
                old(self).tasks@,
                task_place(old(self).tasks@, task_id@),
                fired_ms,
            ),
            final(self).runs@ == old(self).runs@.push(r),
            final(self).last_run_id == old(self).last_run_id + 1,
            r.id == old(self).last_run_id + 1,
            r.task_id@ == task_id@,
            r.fired_ms == now_ms,
            match outcome {
                Some(o) => r.session_id == o.session_id && r.status == o.status,
                None => r.session_id is None && r.status == RunStatus::Error,
            },
    {
        let o: RunOutcome = match outcome {
            Some(o) => o,
            None => RunOutcome { session_id: None, status: RunStatus::Error },
        };
        let record: RunRecord = self.append_run(task_id, o.session_id, o.status, now_ms);
        self.stamp_last_run(task_id, fired_ms);
        record
    }
}

/// The tasks with the `i`th one paused, or resumed.
pub open spec fn toggled(tasks: Seq<TaskRow>, i: int) -> Seq<TaskRow> {
    tasks.update(i, TaskRow { paused: !tasks[i].paused, ..tasks[i] })
}

/// The tasks with the `i`th one last fired at `fired_ms`.
pub open spec fn stamped(tasks: Seq<TaskRow>, i: int, fired_ms: i64) -> Seq<TaskRow> {
    tasks.update(i, TaskRow { last_run: Some(fired_ms), ..tasks[i] })
}

/// Which of the first tasks are due depends on their occurrences alone.
proof fn lemma_due_rows_prefix(
    tasks: Seq<TaskRow>,
    a: Seq<Option<i64>>,
    b: Seq<Option<i64>>,
    n: int,
)
    requires
        n <= a.len(),
        n <= b.len(),
        forall|i: int| 0 <= i < n ==> a[i] == #[trigger] b[i],
    ensures
        due_rows(tasks, a, n) == due_rows(tasks, b, n),
    decreases n,
{
    if n > 0 {
        lemma_due_rows_prefix(tasks, a, b, n - 1);
        assert(a[n - 1] == b[n - 1]);
    }
}

/// The runs that stay when a task is deleted belong to the tasks that stay.
proof fn lemma_kept_runs(store: ScheduledStore, id: Seq<char>, i: int)
    requires
        store.wf(),
        0 <= i < store.tasks@.len(),
        store.tasks@[i].id@ == id,
    ensures
        forall|k: int|
            0 <= k < other_runs(store.runs@, id).len() ==> has_task(
                store.tasks@.remove(i),
                (#[trigger] other_runs(store.runs@, id)[k]).task_id@,
            ) && other_runs(store.runs@, id)[k].id <= store.last_run_id,
        forall|j: int, k: int|
            #![trigger other_runs(store.runs@, id)[j], other_runs(store.runs@, id)[k]]
            0 <= j < k < other_runs(store.runs@, id).len() ==> other_runs(store.runs@, id)[j].id
                < other_runs(store.runs@, id)[k].id,
{
    let others = of_others(id);
    let kept = other_runs(store.runs@, id);
    let tasks = store.tasks@;
    let after = tasks.remove(i);
    assert forall|k: int| 0 <= k < kept.len() implies has_task(
        after,
        (#[trigger] kept[k]).task_id@,
    ) && kept[k].id <= store.last_run_id by {
        seqs::lemma_filter_from(store.runs@, others, k);
        let m = choose|m: int| 0 <= m < store.runs@.len() && store.runs@[m] == kept[k];
        assert(has_task(tasks, store.runs@[m].task_id@));
        let p = task_place(tasks, kept[k].task_id@);
        assert(tasks[p].id@ == kept[k].task_id@);
        if p < i {
            assert(after[p] == tasks[p]);
        } else {
            assert(after[p - 1] == tasks[p]);
        }
    }
    seqs::lemma_filter_pairwise(store.runs@, others, |a: RunRecord, b: RunRecord| a.id < b.id);
}

/// A paused task is never due.
pub proof fn law_paused_task_is_never_due(row: TaskRow, prev: Option<i64>)
    requires
        row.paused,
    ensures
        !due(row, prev),
{
}

/// A task that has never fired is due as soon as it has a past occurrence.
pub proof fn law_fresh_task_is_due(row: TaskRow, prev: Option<i64>)
    requires
        !row.paused,
        row.last_run is None,
        prev is Some,
    ensures
        due(row, prev),
{
}

/// A task that was stamped is not due again before its next occurrence: no
/// occurrence up to the stamp makes it due, whatever the time zone.
pub proof fn law_stamped_task_is_not_due_again(
    tasks: Seq<TaskRow>,
    i: int,
    fired_ms: i64,
    prevs: Seq<Option<i64>>,
    now_ms: i64,
)
    requires
        0 <= i < tasks.len(),
        now_ms <= fired_ms,
        past_occurrences(stamped(tasks, i, fired_ms), prevs, now_ms),
    ensures
        !due(stamped(tasks, i, fired_ms)[i], prevs[i]),
{
    assert(past_occurrence(stamped(tasks, i, fired_ms)[i], prevs[i], now_ms));
}

/// Pausing twice changes nothing.
pub proof fn law_toggling_twice_restores(tasks: Seq<TaskRow>, i: int)
    requires
        0 <= i < tasks.len(),
    ensures
        toggled(toggled(tasks, i), i) == tasks,
{
    assert(toggled(toggled(tasks, i), i) =~= tasks);
}

/// Once a task is deleted no run of it is left, and the runs of the others are.
pub proof fn law_deleting_drops_the_runs(runs: Seq<RunRecord>, id: Seq<char>)
    ensures
        runs_of(other_runs(runs, id), id) == Seq::<RunRecord>::empty(),
        forall|k: int|
            0 <= k < runs.len() && (#[trigger] runs[k]).task_id@ != id ==> other_runs(
                runs,
                id,
            ).contains(runs[k]),
{
    let own = of_task(id);
    let others = of_others(id);
    let kept = other_runs(runs, id);
    if runs_of(kept, id).len() > 0 {
        seqs::lemma_filter_from(kept, own, 0);
        let m = choose|m: int| 0 <= m < kept.len() && kept[m] == runs_of(kept, id)[0];
        seqs::lemma_filter_from(runs, others, m);
    }
    assert(runs_of(kept, id) =~= Seq::<RunRecord>::empty());
    assert forall|k: int| 0 <= k < runs.len() && (#[trigger] runs[k]).task_id@ != id implies kept
        .contains(runs[k]) by {
        runs.lemma_filter_contains(others, k);
    }
}

} // verus!
