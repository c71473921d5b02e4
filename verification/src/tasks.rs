//! Task records, filters, and the bookkeeping of the task store.
//!
//! The durable task store persists task records under a monotonic task
//! identifier and keeps an in-memory queue of pending identifiers.  The
//! bookkeeping — identifier assignment, record lookup, filtering, pending
//! selection — is plain computation and lives here; durability, clocks and
//! the async surface stay with the embedding program.

use vstd::prelude::*;

verus! {

/// Identifier of a task record.
pub type TaskId = u64;

/// One step of a task's life, stamped with a unix timestamp in
/// milliseconds.
#[derive(Clone, Copy, Debug, PartialEq, Eq, Structural)]
pub enum TaskEvent {
    /// The task was registered.
    Created(i64),
    /// A worker started processing the task.
    Processing(i64),
    /// The task finished successfully.
    Succeeded(i64),
    /// The task failed.
    Failed(i64),
}

/// What a task asks the index to do.
#[derive(Clone, Debug, PartialEq)]
pub enum TaskContent {
    /// Create an index, optionally naming its primary key.
    CreateIndex {
        /// The primary key the new index should use.
        primary_key: Option<String>,
    },
    /// Delete the index.
    IndexDeletion,
}

/// One asynchronous index-mutation job.
#[derive(Debug)]
pub struct Task {
    /// The task's identifier, unique in the store.
    pub id: TaskId,
    /// The index the task addresses.
    pub index_uid: String,
    /// What the task does.
    pub content: TaskContent,
    /// The task's life so far, oldest first.
    pub events: Vec<TaskEvent>,
}

/// The errors the task store reports.
#[derive(Clone, Copy, Debug, PartialEq, Eq, Structural)]
pub enum TaskError {
    /// No task with this identifier is visible to the caller.
    UnexistingTask(TaskId),
}

/// Tests one string of a list for equality.
pub fn contains_string(v: &Vec<String>, s: &String) -> (r: bool)
    ensures
        r == v@.map_values(|x: String| x@).contains(s@),
{
    let mut i: usize = 0;
    let ghost views = v@.map_values(|x: String| x@);
    while i < v.len()
        invariant
            0 <= i <= v@.len(),
            views == v@.map_values(|x: String| x@),
            forall|k: int| 0 <= k < i ==> views[k] != s@,
        decreases v@.len() - i,
    {
        let hit = v[i].eq(s);
        proof {
            assert(views[i as int] == v@[i as int]@);
        }
        if hit {
            return true;
        }
        i += 1;
    }
    false
}

/// Constraints applied when querying the store for tasks.
#[derive(Default, Debug)]
pub struct TaskFilter {
    indexes: Option<Vec<String>>,
}

impl TaskFilter {
    /// The index names the filter admits, or nothing when it admits all.
    pub closed spec fn indexes_spec(&self) -> Option<Seq<Seq<char>>> {
        match self.indexes {
            Option::None => Option::None,
            Option::Some(v) => Option::Some(v@.map_values(|x: String| x@)),
        }
    }

    /// Whether the filter admits a task: always, when no index was named;
    /// otherwise exactly when the task's index is among the named ones.
    pub open spec fn pass_spec(&self, task: Task) -> bool {
        match self.indexes_spec() {
            Option::None => true,
            Option::Some(names) => names.contains(task.index_uid@),
        }
    }

    /// A filter that admits every task.
    pub fn new() -> (f: TaskFilter)
        ensures
            f.indexes_spec() == Option::<Seq<Seq<char>>>::None,
    {
        TaskFilter { indexes: Option::None }
    }

    /// Tests a task against the filter.
    pub fn pass(&self, task: &Task) -> (r: bool)
        ensures
            r == self.pass_spec(*task),
    {
        match &self.indexes {
            Option::None => true,
            Option::Some(v) => contains_string(v, &task.index_uid),
        }
    }

    /// Adds an index to the filter, so the filter must match this index.
    pub fn filter_index(&mut self, index: String)
        ensures
            final(self).indexes_spec().is_some(),
            forall|x: Seq<char>|
                final(self).indexes_spec().unwrap().contains(x) <==> (x == index@ || (old(
                    self,
                ).indexes_spec().is_some() && old(self).indexes_spec().unwrap().contains(x))),
    {
        let ghost pre = self.indexes_spec();
        match &mut self.indexes {
            Option::None => {
                self.indexes = Option::Some(vec![index]);
                proof {
                    let views = self.indexes.unwrap()@.map_values(|x: String| x@);
                    assert(views.len() == 1 && views[0] == index@);
                    assert forall|x: Seq<char>| views.contains(x) implies x == index@ by {}
                }
            },
            Option::Some(v) => {
                let ghost old_views = v@.map_values(|x: String| x@);
                if !contains_string(v, &index) {
                    let ghost vpre = v@;
                    v.push(index);
                    proof {
                        let views = v@.map_values(|x: String| x@);
                        assert(v@ == vpre.push(index));
                        assert(views =~= old_views.push(index@));
                        assert forall|x: Seq<char>| views.contains(x) implies (x == index@
                            || old_views.contains(x)) by {
                            let w = choose|w: int| 0 <= w < views.len() && views[w] == x;
                            if w < old_views.len() {
                                assert(old_views[w] == x);
                            }
                        }
                        assert(views.contains(index@)) by {
                            assert(views[views.len() - 1] == index@);
                        }
                        assert forall|x: Seq<char>| old_views.contains(x) implies views.contains(
                            x,
                        ) by {
                            let w = choose|w: int| 0 <= w < old_views.len() && old_views[w] == x;
                            assert(views[w] == x);
                        }
                    }
                }
            },
        }
    }
}

/// The first task of the list carrying this identifier.
pub open spec fn find_task(tasks: Seq<Task>, id: TaskId) -> Option<Task>
    decreases tasks.len(),
{
    if tasks.len() == 0 {
        Option::None
    } else if tasks[0].id == id {
        Option::Some(tasks[0])
    } else {
        find_task(tasks.drop_first(), id)
    }
}

/// The identifier the store hands the next registered task: one past the
/// highest identifier stored, zero in an empty store.
pub open spec fn next_id_spec(tasks: Seq<Task>) -> int {
    if tasks.len() == 0 {
        0
    } else {
        tasks.last().id + 1
    }
}

/// The last update of a batch naming this identifier.
pub open spec fn find_last_update(us: Seq<Task>, id: TaskId) -> Option<Task>
    decreases us.len(),
{
    if us.len() == 0 {
        Option::None
    } else if us.last().id == id {
        Option::Some(us.last())
    } else {
        find_last_update(us.drop_last(), id)
    }
}

/// `m` is the smallest identifier of the queue.
pub open spec fn is_min_id(s: Seq<TaskId>, m: TaskId) -> bool {
    s.contains(m) && forall|i: int| 0 <= i < s.len() ==> m <= #[trigger] s[i]
}

/// Whether a task is admitted by an optional offset and an optional filter:
/// its identifier must not exceed the offset, and the filter must pass it.
pub open spec fn eligible(t: Task, offset: Option<TaskId>, filter: Option<&TaskFilter>) -> bool {
    &&& (match offset {
        Option::None => true,
        Option::Some(o) => t.id <= o,
    })
    &&& (match filter {
        Option::None => true,
        Option::Some(f) => f.pass_spec(t),
    })
}

/// One fewer task allowed, where a limit was given.
pub open spec fn dec_limit(limit: Option<usize>) -> Option<usize> {
    match limit {
        Option::None => Option::None,
        Option::Some(l) => Option::Some((l - 1) as usize),
    }
}

/// The tasks a listing returns: stored tasks from the highest identifier
/// down (from the offset down, when one is given), those the filter admits,
/// at most `limit` of them.
pub open spec fn listed(
    tasks: Seq<Task>,
    offset: Option<TaskId>,
    filter: Option<&TaskFilter>,
    limit: Option<usize>,
) -> Seq<Task>
    decreases tasks.len(),
{
    if tasks.len() == 0 || (limit.is_some() && limit.unwrap() == 0) {
        Seq::<Task>::empty()
    } else if eligible(tasks.last(), offset, filter) {
        seq![tasks.last()] + listed(tasks.drop_last(), offset, filter, dec_limit(limit))
    } else {
        listed(tasks.drop_last(), offset, filter, limit)
    }
}

/// The identifiers of the queue that are not in the removal set, in order.
pub open spec fn retained(s: Seq<TaskId>, rm: Seq<TaskId>) -> Seq<TaskId>
    decreases s.len(),
{
    if s.len() == 0 {
        Seq::<TaskId>::empty()
    } else if rm.contains(s.last()) {
        retained(s.drop_last(), rm)
    } else {
        retained(s.drop_last(), rm).push(s.last())
    }
}

/// Tests whether an identifier is in a list.
pub fn contains_id(v: &Vec<TaskId>, x: TaskId) -> (r: bool)
    ensures
        r == v@.contains(x),
{
    let mut i: usize = 0;
    while i < v.len()
        invariant
            0 <= i <= v@.len(),
            forall|k: int| 0 <= k < i ==> v@[k] != x,
        decreases v@.len() - i,
    {
        if v[i] == x {
            return true;
        }
        i += 1;
    }
    false
}

/// A task at a position of a store with unique identifiers is what lookup
/// finds.
proof fn lemma_find_at(tasks: Seq<Task>, id: TaskId, i: int)
    requires
        forall|a: int, b: int| 0 <= a < b < tasks.len() ==> (#[trigger] tasks[a]).id != (#[trigger] tasks[b]).id,
        0 <= i < tasks.len(),
        tasks[i].id == id,
    ensures
        find_task(tasks, id) == Option::Some(tasks[i]),
    decreases tasks.len(),
{
    if i > 0 {
        let rest = tasks.drop_first();
        assert forall|a: int, b: int| 0 <= a < b < rest.len() implies (#[trigger] rest[a]).id != (
        #[trigger] rest[b]).id by {
            assert(rest[a] == tasks[a + 1]);
            assert(rest[b] == tasks[b + 1]);
        }
        assert(rest[i - 1] == tasks[i]);
        lemma_find_at(rest, id, i - 1);
    }
}

/// An identifier stored nowhere is found nowhere.
proof fn lemma_find_none(tasks: Seq<Task>, id: TaskId)
    requires
        forall|i: int| 0 <= i < tasks.len() ==> (#[trigger] tasks[i]).id != id,
    ensures
        find_task(tasks, id).is_none(),
    decreases tasks.len(),
{
    if tasks.len() > 0 {
        let rest = tasks.drop_first();
        assert(forall|i: int| 0 <= i < rest.len() ==> #[trigger] rest[i] == tasks[i + 1]);
        lemma_find_none(rest, id);
    }
}

/// The bookkeeping of the task store: the task records ordered by
/// ascending identifier, and the queue of pending identifiers.
pub struct TaskStore {
    tasks: Vec<Task>,
    pending: Vec<TaskId>,
}

impl TaskStore {
    /// The stored records, ascending by identifier, for specifications.
    pub closed spec fn tasks_spec(&self) -> Seq<Task> {
        self.tasks@
    }

    /// The pending queue, for specifications.
    pub closed spec fn pending_spec(&self) -> Seq<TaskId> {
        self.pending@
    }

    /// Records are strictly ordered by identifier, so identifiers are
    /// unique and the last record carries the highest one.
    pub open spec fn wf(&self) -> bool {
        forall|a: int, b: int|
            0 <= a < b < self.tasks_spec().len() ==> (#[trigger] self.tasks_spec()[a]).id < (
            #[trigger] self.tasks_spec()[b]).id
    }

    /// An empty store.
    pub fn new() -> (s: TaskStore)
        ensures
            s.tasks_spec() == Seq::<Task>::empty(),
            s.pending_spec() == Seq::<TaskId>::empty(),
            s.wf(),
    {
        TaskStore { tasks: Vec::new(), pending: Vec::new() }
    }

    /// The identifier the next registered task would get.
    pub fn next_task_id(&self) -> (r: TaskId)
        requires
            self.wf(),
            next_id_spec(self.tasks_spec()) <= u64::MAX,
        ensures
            r as int == next_id_spec(self.tasks_spec()),
    {
        if self.tasks.len() == 0 {
            0
        } else {
            self.tasks[self.tasks.len() - 1].id + 1
        }
    }

    /// Stores a record: a task with the same identifier is replaced, any
    /// other record is kept, and the next identifier moves past the new
    /// task's if needed.
    pub fn put(&mut self, task: Task)
        requires
            old(self).wf(),
        ensures
            final(self).wf(),
            final(self).pending_spec() == old(self).pending_spec(),
            find_task(final(self).tasks_spec(), task.id) == Option::Some(task),
            forall|i: TaskId|
                i != task.id ==> #[trigger] find_task(final(self).tasks_spec(), i) == find_task(
                    old(self).tasks_spec(),
                    i,
                ),
            next_id_spec(final(self).tasks_spec()) == if task.id + 1 > next_id_spec(
                old(self).tasks_spec(),
            ) {
                task.id + 1
            } else {
                next_id_spec(old(self).tasks_spec())
            },
    {
        let ghost pre = self.tasks@;
        let mut j: usize = self.tasks.len();
        while j > 0 && self.tasks[j - 1].id > task.id
            invariant
                0 <= j <= self.tasks@.len(),
                self.tasks@ == pre,
                forall|k: int| j <= k < pre.len() ==> (#[trigger] pre[k]).id > task.id,
                old(self).wf(),
            decreases j,
        {
            j -= 1;
        }
        let ghost ji = j as int;
        if j > 0 && self.tasks[j - 1].id == task.id {
            self.tasks[j - 1] = task;
            proof {
                let cur = self.tasks@;
                assert(cur == pre.update(ji - 1, task));
                assert forall|a: int, b: int| 0 <= a < b < cur.len() implies (
                #[trigger] cur[a]).id < (#[trigger] cur[b]).id by {}
                lemma_find_at(cur, task.id, ji - 1);
                assert forall|i: TaskId| i != task.id implies #[trigger] find_task(cur, i)
                    == find_task(pre, i) by {
                    if exists|p: int| 0 <= p < pre.len() && (#[trigger] pre[p]).id == i {
                        let p = choose|p: int| 0 <= p < pre.len() && (#[trigger] pre[p]).id == i;
                        assert(cur[p] == pre[p]);
                        lemma_find_at(pre, i, p);
                        lemma_find_at(cur, i, p);
                    } else {
                        lemma_find_none(pre, i);
                        lemma_find_none(cur, i);
                    }
                }
                assert(cur.last().id == pre.last().id);
            }
        } else {
            self.tasks.insert(j, task);
            proof {
                let cur = self.tasks@;
                assert(cur == pre.insert(ji, task));
                assert(forall|k: int| 0 <= k < ji ==> cur[k] == #[trigger] pre[k]);
                assert(forall|k: int| ji < k < cur.len() ==> cur[k] == #[trigger] pre[k - 1]);
                assert(cur[ji] == task);
                assert(forall|k: int| 0 <= k < ji ==> (#[trigger] pre[k]).id <= task.id);
                assert(forall|k: int| 0 <= k < ji ==> (#[trigger] pre[k]).id != task.id);
                assert forall|a: int, b: int| 0 <= a < b < cur.len() implies (
                #[trigger] cur[a]).id < (#[trigger] cur[b]).id by {
                    if a < ji && b == ji {
                        assert(pre[a].id <= task.id && pre[a].id != task.id);
                    }
                }
                lemma_find_at(cur, task.id, ji);
                assert forall|i: TaskId| i != task.id implies #[trigger] find_task(cur, i)
                    == find_task(pre, i) by {
                    if exists|p: int| 0 <= p < pre.len() && (#[trigger] pre[p]).id == i {
                        let p = choose|p: int| 0 <= p < pre.len() && (#[trigger] pre[p]).id == i;
                        lemma_find_at(pre, i, p);
                        if p < ji {
                            lemma_find_at(cur, i, p);
                        } else {
                            assert(cur[p + 1] == pre[p]);
                            lemma_find_at(cur, i, p + 1);
                        }
                    } else {
                        lemma_find_none(pre, i);
                        assert forall|p: int| 0 <= p < cur.len() implies (#[trigger] cur[p]).id
                            != i by {
                            if p < ji {
                                assert(cur[p] == pre[p]);
                            } else if p > ji {
                                assert(cur[p] == pre[p - 1]);
                            }
                        }
                        lemma_find_none(cur, i);
                    }
                }
                if ji < pre.len() {
                    assert(cur.last() == pre.last());
                } else {
                    assert(cur.last() == task);
                    if pre.len() > 0 {
                        assert(pre.last().id <= task.id && pre.last().id != task.id);
                    }
                }
            }
        }
    }

    /// Looks a record up by identifier.
    pub fn get(&self, id: TaskId) -> (r: Option<&Task>)
        requires
            self.wf(),
        ensures
            match r {
                Option::Some(t) => find_task(self.tasks_spec(), id) == Option::Some(*t),
                Option::None => find_task(self.tasks_spec(), id).is_none(),
            },
    {
        let mut i: usize = 0;
        while i < self.tasks.len()
            invariant
                self.wf(),
                0 <= i <= self.tasks_spec().len(),
                forall|k: int| 0 <= k < i ==> (#[trigger] self.tasks_spec()[k]).id != id,
            decreases self.tasks_spec().len() - i,
        {
            if self.tasks[i].id == id {
                proof {
                    lemma_find_at(self.tasks_spec(), id, i as int);
                }
                return Option::Some(&self.tasks[i]);
            }
            i += 1;
        }
        proof {
            lemma_find_none(self.tasks_spec(), id);
        }
        Option::None
    }

    /// Registers a new task: stores a record under the next identifier,
    /// with a creation event stamped `now`, and queues it as pending.
    /// Returns the identifier.
    pub fn register(&mut self, index_uid: String, content: TaskContent, now: i64) -> (r: TaskId)
        requires
            old(self).wf(),
            next_id_spec(old(self).tasks_spec()) <= u64::MAX,
        ensures
            final(self).wf(),
            r as int == next_id_spec(old(self).tasks_spec()),
            final(self).pending_spec() == old(self).pending_spec().push(r),
            ({
                let t = find_task(final(self).tasks_spec(), r);
                &&& t.is_some()
                &&& t.unwrap().id == r
                &&& t.unwrap().index_uid@ == index_uid@
                &&& t.unwrap().events@ == seq![TaskEvent::Created(now)]
            }),
            forall|i: TaskId|
                i != r ==> #[trigger] find_task(final(self).tasks_spec(), i) == find_task(
                    old(self).tasks_spec(),
                    i,
                ),
    {
        let id = self.next_task_id();
        let task = Task { id, index_uid, content, events: vec![TaskEvent::Created(now)] };
        proof {
            assert(task.events@ =~= seq![TaskEvent::Created(now)]);
        }
        self.put(task);
        self.pending.push(id);
        id
    }

    /// The next pending task: the smallest queued identifier, if any.
    pub fn peek_pending(&self) -> (r: Option<TaskId>)
        ensures
            r.is_none() <==> self.pending_spec().len() == 0,
            r.is_some() ==> is_min_id(self.pending_spec(), r.unwrap()),
    {
        if self.pending.len() == 0 {
            return Option::None;
        }
        let mut m = self.pending[0];
        let mut i: usize = 1;
        while i < self.pending.len()
            invariant
                1 <= i <= self.pending_spec().len(),
                self.pending_spec().contains(m),
                forall|k: int| 0 <= k < i ==> m <= #[trigger] self.pending_spec()[k],
            decreases self.pending_spec().len() - i,
        {
            if self.pending[i] < m {
                m = self.pending[i];
            }
            i += 1;
        }
        Option::Some(m)
    }

    /// Looks a task up, applying a filter: a task the filter rejects is
    /// reported exactly as a missing one.
    pub fn get_task(&self, id: TaskId, filter: Option<&TaskFilter>) -> (r: Result<
        &Task,
        TaskError,
    >)
        requires
            self.wf(),
        ensures
            match r {
                Result::Ok(t) => {
                    &&& find_task(self.tasks_spec(), id) == Option::Some(*t)
                    &&& (filter.is_some() ==> filter.unwrap().pass_spec(*t))
                },
                Result::Err(e) => {
                    &&& e == TaskError::UnexistingTask(id)
                    &&& (find_task(self.tasks_spec(), id).is_none() || (filter.is_some()
                        && !filter.unwrap().pass_spec(find_task(self.tasks_spec(), id).unwrap())))
                },
            },
    {
        match self.get(id) {
            Option::None => Result::Err(TaskError::UnexistingTask(id)),
            Option::Some(task) => match filter {
                Option::None => Result::Ok(task),
                Option::Some(f) => {
                    if f.pass(task) {
                        Result::Ok(task)
                    } else {
                        Result::Err(TaskError::UnexistingTask(id))
                    }
                },
            },
        }
    }

    /// The task to process now: the record of the smallest pending
    /// identifier, if its latest event says a worker is processing it.
    /// A pending identifier with no record is an error.
    pub fn get_processing_task(&self) -> (r: Result<Option<&Task>, TaskError>)
        requires
            self.wf(),
        ensures
            match r {
                Result::Ok(Option::Some(t)) => {
                    &&& exists|id: TaskId|
                        #[trigger] is_min_id(self.pending_spec(), id) && find_task(
                            self.tasks_spec(),
                            id,
                        ) == Option::Some(*t)
                    &&& t.events@.len() > 0
                    &&& t.events@.last() is Processing
                },
                Result::Ok(Option::None) => self.pending_spec().len() == 0 || exists|id: TaskId|
                    {
                        &&& #[trigger] is_min_id(self.pending_spec(), id)
                        &&& find_task(self.tasks_spec(), id).is_some()
                        &&& !(find_task(self.tasks_spec(), id).unwrap().events@.len() > 0
                            && find_task(self.tasks_spec(), id).unwrap().events@.last() is Processing)
                    },
                Result::Err(e) => exists|id: TaskId|
                    {
                        &&& #[trigger] is_min_id(self.pending_spec(), id)
                        &&& find_task(self.tasks_spec(), id).is_none()
                        &&& e == TaskError::UnexistingTask(id)
                    },
            },
    {
        match self.peek_pending() {
            Option::None => Result::Ok(Option::None),
            Option::Some(id) => match self.get(id) {
                Option::None => Result::Err(TaskError::UnexistingTask(id)),
                Option::Some(task) => {
                    if task.events.len() > 0 && matches!(
                        task.events[task.events.len() - 1],
                        TaskEvent::Processing(_),
                    ) {
                        Result::Ok(Option::Some(task))
                    } else {
                        Result::Ok(Option::None)
                    }
                },
            },
        }
    }

    /// Stores a batch of records in order: for each identifier the last
    /// record of the batch naming it wins, other records stay.
    pub fn update_tasks(&mut self, tasks: Vec<Task>)
        requires
            old(self).wf(),
        ensures
            final(self).wf(),
            final(self).pending_spec() == old(self).pending_spec(),
            forall|i: TaskId|
                #[trigger] find_task(final(self).tasks_spec(), i) == (match find_last_update(
                    tasks@,
                    i,
                ) {
                    Option::Some(t) => Option::Some(t),
                    Option::None => find_task(old(self).tasks_spec(), i),
                }),
    {
        let ghost us = tasks@;
        let n_us = tasks.len();
        proof {
            assert(us.len() == n_us as int);
        }
        let mut tasks = tasks;
        let mut j: usize = 0;
        while tasks.len() > 0
            invariant
                old(self).wf(),
                self.wf(),
                self.pending_spec() == old(self).pending_spec(),
                us.len() <= usize::MAX,
                j + tasks@.len() == us.len(),
                tasks@ == us.subrange(j as int, us.len() as int),
                forall|i: TaskId|
                    #[trigger] find_task(self.tasks_spec(), i) == (match find_last_update(
                        us.subrange(0, j as int),
                        i,
                    ) {
                        Option::Some(t) => Option::Some(t),
                        Option::None => find_task(old(self).tasks_spec(), i),
                    }),
            decreases tasks@.len(),
        {
            let ghost before = tasks@;
            let t = tasks.remove(0);
            let ghost tid = t.id;
            proof {
                assert(t == us[j as int]);
                assert(tasks@ =~= us.subrange(j as int + 1, us.len() as int));
            }
            self.put(t);
            proof {
                let prefix = us.subrange(0, j as int);
                let prefix2 = us.subrange(0, j as int + 1);
                assert(prefix2.drop_last() =~= prefix);
                assert(prefix2.last() == us[j as int]);
                assert forall|i: TaskId| true implies #[trigger] find_task(self.tasks_spec(), i)
                    == (match find_last_update(prefix2, i) {
                    Option::Some(t2) => Option::Some(t2),
                    Option::None => find_task(old(self).tasks_spec(), i),
                }) by {
                    if i == tid {
                        assert(find_last_update(prefix2, i) == Option::Some(us[j as int]));
                    } else {
                        assert(find_last_update(prefix2, i) == find_last_update(prefix, i));
                    }
                }
            }
            j += 1;
        }
        proof {
            assert(us.subrange(0, us.len() as int) =~= us);
        }
    }

    /// Unqueues pending tasks: identifiers of the removal set leave the
    /// queue, the rest keep their order.  Stored records are untouched.
    pub fn delete_tasks(&mut self, to_remove: &Vec<TaskId>)
        ensures
            final(self).tasks_spec() == old(self).tasks_spec(),
            final(self).pending_spec() == retained(old(self).pending_spec(), to_remove@),
    {
        let ghost ps = self.pending@;
        let mut kept: Vec<TaskId> = Vec::new();
        let mut i: usize = 0;
        proof {
            assert(ps.subrange(0, 0) =~= Seq::<TaskId>::empty());
        }
        while i < self.pending.len()
            invariant
                0 <= i <= self.pending_spec().len(),
                self.pending_spec() == ps,
                kept@ == retained(ps.subrange(0, i as int), to_remove@),
            decreases self.pending_spec().len() - i,
        {
            let x = self.pending[i];
            proof {
                let p2 = ps.subrange(0, i as int + 1);
                assert(p2.drop_last() =~= ps.subrange(0, i as int));
                assert(p2.last() == ps[i as int]);
            }
            if !contains_id(to_remove, x) {
                kept.push(x);
            }
            i += 1;
        }
        proof {
            assert(ps.subrange(0, ps.len() as int) =~= ps);
        }
        self.pending = kept;
    }

    /// Lists stored tasks from the highest identifier down — from the
    /// offset down when one is given — those the filter admits, at most
    /// `limit` of them.
    pub fn list_tasks<'a>(
        &'a self,
        offset: Option<TaskId>,
        filter: Option<&TaskFilter>,
        limit: Option<usize>,
    ) -> (r: Vec<&'a Task>)
        requires
            self.wf(),
        ensures
            r@.map_values(|t: &Task| *t) == listed(self.tasks_spec(), offset, filter, limit),
    {
        let ghost ts = self.tasks@;
        let ghost goal = listed(ts, offset, filter, limit);
        let mut r: Vec<&'a Task> = Vec::new();
        let mut left = limit;
        let mut more = match left {
            Option::Some(0) => false,
            _ => true,
        };
        let mut i: usize = self.tasks.len();
        proof {
            assert(ts.subrange(0, i as int) =~= ts);
            assert(r@.map_values(|t: &Task| *t) =~= Seq::<Task>::empty());
        }
        while i > 0 && more
            invariant
                0 <= i <= ts.len(),
                self.tasks@ == ts,
                more == !(left.is_some() && left.unwrap() == 0),
                r@.map_values(|t: &Task| *t) + listed(ts.subrange(0, i as int), offset, filter, left)
                    == goal,
            decreases i,
        {
            i -= 1;
            let task = &self.tasks[i];
            let ghost pre = ts.subrange(0, i as int + 1);
            proof {
                assert(pre.drop_last() =~= ts.subrange(0, i as int));
                assert(pre.last() == ts[i as int]);
            }
            let keep = match (&offset, &filter) {
                (Option::None, Option::None) => true,
                (Option::Some(o), Option::None) => task.id <= *o,
                (Option::None, Option::Some(f)) => f.pass(task),
                (Option::Some(o), Option::Some(f)) => task.id <= *o && f.pass(task),
            };
            proof {
                assert(keep == eligible(ts[i as int], offset, filter));
            }
            if keep {
                let ghost rm = r@.map_values(|t: &Task| *t);
                r.push(task);
                proof {
                    assert(r@.map_values(|t: &Task| *t) =~= rm.push(ts[i as int]));
                    assert(listed(pre, offset, filter, left) == seq![ts[i as int]] + listed(
                        ts.subrange(0, i as int),
                        offset,
                        filter,
                        dec_limit(left),
                    ));
                    assert(rm.push(ts[i as int]) + listed(
                        ts.subrange(0, i as int),
                        offset,
                        filter,
                        dec_limit(left),
                    ) =~= rm + listed(pre, offset, filter, left));
                }
                left = match left {
                    Option::None => Option::None,
                    Option::Some(l) => Option::Some(l - 1),
                };
                more = match left {
                    Option::Some(0) => false,
                    _ => true,
                };
            }
        }
        proof {
            if i == 0 {
                assert(ts.subrange(0, 0) =~= Seq::<Task>::empty());
            }
            assert(listed(ts.subrange(0, i as int), offset, filter, left) =~= Seq::<Task>::empty());
            assert(r@.map_values(|t: &Task| *t) =~= goal);
        }
        r
    }
}

} // verus!
