use vstd::prelude::*;
use crate::taxonomy::{
    Bucket, TaskType, bucket_named, category_of, initial_category, parse_bucket,
    category_for_bucket,
};
use crate::text::{trimmed, trim_str, is_blank, lemma_trimmed_empty_iff_blank};
use vstd::string::StrSliceExecFns;
use vstd::string::StringExecFns;

verus! {

/// The ways an operation on the board can fail.
#[derive(Debug, Clone, Copy, PartialEq, Eq, Structural)]
pub enum TaskError {
    /// The title is empty once trimmed.
    ValidationError,
    /// The bucket token names no bucket.
    InvalidBucket,
    /// No task has the given id.
    NotFound,
    /// The store cannot take the change (its id or position space is used up).
    StorageError,
}

/// One task row. Timestamps are milliseconds since the Unix epoch.
#[derive(Clone)]
pub struct Task {
    pub id: i64,
    pub title: String,
    pub task_type: TaskType,
    pub bucket: Bucket,
    pub completed: bool,
    pub position: i64,
    pub created_at: i64,
    pub updated_at: i64,
}

/// What a task row holds, as mathematical values.
pub ghost struct TaskModel {
    pub id: i64,
    pub title: Seq<char>,
    pub task_type: TaskType,
    pub bucket: Bucket,
    pub completed: bool,
    pub position: i64,
    pub created_at: i64,
    pub updated_at: i64,
}

impl View for Task {
    type V = TaskModel;

    open spec fn view(&self) -> TaskModel {
        TaskModel {
            id: self.id,
            title: self.title@,
            task_type: self.task_type,
            bucket: self.bucket,
            completed: self.completed,
            position: self.position,
            created_at: self.created_at,
            updated_at: self.updated_at,
        }
    }
}

impl Task {
    /// An equal task with its own title buffer.
    pub fn duplicate(&self) -> (r: Task)
        ensures
            r@ == self@,
    {
        Task {
            id: self.id,
            title: self.title.clone(),
            task_type: self.task_type,
            bucket: self.bucket,
            completed: self.completed,
            position: self.position,
            created_at: self.created_at,
            updated_at: self.updated_at,
        }
    }
}

pub open spec fn models(v: Seq<Task>) -> Seq<TaskModel> {
    v.map_values(|t: Task| t@)
}

/// The task with id `id`, searching from the most recent row.
pub open spec fn find_task(ts: Seq<TaskModel>, id: i64) -> Option<TaskModel>
    decreases ts.len(),
{
    if ts.len() == 0 {
        None
    } else if ts.last().id == id {
        Some(ts.last())
    } else {
        find_task(ts.drop_last(), id)
    }
}

/// The largest position in bucket `b`, 0 where `b` is empty.
pub open spec fn max_position(ts: Seq<TaskModel>, b: Bucket) -> int
    decreases ts.len(),
{
    if ts.len() == 0 {
        0
    } else {
        let rest = max_position(ts.drop_last(), b);
        if ts.last().bucket == b && ts.last().position > rest {
            ts.last().position as int
        } else {
            rest
        }
    }
}

/// The position that a task appended to bucket `b` gets.
pub open spec fn next_position(ts: Seq<TaskModel>, b: Bucket) -> int {
    max_position(ts, b) + 1
}

/// The time stamp that an operation at `now` records: `now`, unless the
/// store's clock is not behind it, in which case one past the clock.
pub open spec fn stamp(clock: i64, now: i64) -> i64 {
    if now > clock {
        now
    } else if clock < i64::MAX {
        (clock + 1) as i64
    } else {
        clock
    }
}

/// The whole store as mathematical values.
pub ghost struct BoardModel {
    pub tasks: Seq<TaskModel>,
    pub next_id: i64,
    pub clock: i64,
}

/// The store's invariant: ids are unique, positive and below the next id;
/// positions are positive; a task in a quadrant bucket carries that
/// quadrant as its category; no time stamp is ahead of the clock.
pub open spec fn board_wf(m: BoardModel) -> bool {
    &&& 1 <= m.next_id
    &&& forall|i: int, j: int|
        0 <= i < m.tasks.len() && 0 <= j < m.tasks.len() && #[trigger] m.tasks[i].id
            == #[trigger] m.tasks[j].id ==> i == j
    &&& forall|i: int| 0 <= i < m.tasks.len() ==> task_wf(#[trigger] m.tasks[i], m)
}

pub open spec fn task_wf(t: TaskModel, m: BoardModel) -> bool {
    &&& 1 <= t.id < m.next_id
    &&& t.position >= 1
    &&& (category_of(t.bucket) matches Some(q) ==> t.task_type == q)
    &&& t.created_at <= t.updated_at <= m.clock
}

/// `t` with its completion flipped at time `st`.
pub open spec fn toggled(t: TaskModel, st: i64) -> TaskModel {
    TaskModel { completed: !t.completed, updated_at: st, ..t }
}

/// `t` with title `title` at time `st`.
pub open spec fn retitled(t: TaskModel, title: Seq<char>, st: i64) -> TaskModel {
    TaskModel { title: title, updated_at: st, ..t }
}

/// The position a move to index `index` gives: one past the index, 1 without one.
pub open spec fn target_position(index: Option<usize>) -> int {
    match index {
        Some(k) => k + 1,
        None => 1,
    }
}

/// `t` moved into bucket `b` at position `pos` at time `st`: a quadrant
/// bucket forces its own category, `Today` keeps the task's category.
pub open spec fn moved(t: TaskModel, b: Bucket, pos: i64, st: i64) -> TaskModel {
    TaskModel {
        bucket: b,
        task_type: match category_of(b) {
            Some(q) => q,
            None => t.task_type,
        },
        position: pos,
        updated_at: st,
        ..t
    }
}

/// Every task with id `id` replaced by `f` of it.
pub open spec fn update_id(
    ts: Seq<TaskModel>,
    id: i64,
    f: spec_fn(TaskModel) -> TaskModel,
) -> Seq<TaskModel> {
    ts.map_values(|t: TaskModel| if t.id == id { f(t) } else { t })
}

/// The board after toggling task `id` at `now`.
pub open spec fn toggle_model(m: BoardModel, id: i64, now: i64) -> BoardModel {
    let st = stamp(m.clock, now);
    BoardModel { tasks: update_id(m.tasks, id, |t: TaskModel| toggled(t, st)), clock: st, ..m }
}

/// The board after giving task `id` the title `title` at `now`.
pub open spec fn retitle_model(m: BoardModel, id: i64, title: Seq<char>, now: i64) -> BoardModel {
    let st = stamp(m.clock, now);
    BoardModel {
        tasks: update_id(m.tasks, id, |t: TaskModel| retitled(t, title, st)),
        clock: st,
        ..m
    }
}

/// The board after moving task `id` into `b` at position `pos` at `now`.
pub open spec fn move_model(m: BoardModel, id: i64, b: Bucket, pos: i64, now: i64) -> BoardModel {
    let st = stamp(m.clock, now);
    BoardModel { tasks: update_id(m.tasks, id, |t: TaskModel| moved(t, b, pos, st)), clock: st, ..m }
}

/// The rows without the one whose id is `id`.
pub open spec fn without_id(ts: Seq<TaskModel>, id: i64) -> Seq<TaskModel>
    decreases ts.len(),
{
    if ts.len() == 0 {
        ts
    } else if ts.last().id == id {
        without_id(ts.drop_last(), id)
    } else {
        without_id(ts.drop_last(), id).push(ts.last())
    }
}

/// The index of the last occurrence of `id` in `ids`, -1 where it is absent.
pub open spec fn last_index(ids: Seq<i64>, id: i64) -> int
    decreases ids.len(),
{
    if ids.len() == 0 {
        -1
    } else if ids.last() == id {
        ids.len() - 1
    } else {
        last_index(ids.drop_last(), id)
    }
}

/// `t` after a reorder by `ids` at time `st`: a task whose id is listed
/// takes one past its (last) index as position; others stay as they are.
pub open spec fn reordered(t: TaskModel, ids: Seq<i64>, st: i64) -> TaskModel {
    if last_index(ids, t.id) >= 0 {
        TaskModel { position: (last_index(ids, t.id) + 1) as i64, updated_at: st, ..t }
    } else {
        t
    }
}

/// The board after a reorder by `ids` at `now`.
pub open spec fn reorder_model(m: BoardModel, ids: Seq<i64>, now: i64) -> BoardModel {
    let st = stamp(m.clock, now);
    BoardModel { tasks: m.tasks.map_values(|t: TaskModel| reordered(t, ids, st)), clock: st, ..m }
}

/// The task that `create_task` adds with bucket `b` at time `st`.
pub open spec fn created(m: BoardModel, title: Seq<char>, b: Bucket, st: i64) -> TaskModel {
    TaskModel {
        id: m.next_id,
        title: trimmed(title),
        task_type: initial_category(b),
        bucket: b,
        completed: false,
        position: next_position(m.tasks, b) as i64,
        created_at: st,
        updated_at: st,
    }
}

/// The task store: task rows, the id the next task gets, and the latest
/// time stamp it has recorded.
#[derive(Clone)]
pub struct Board {
    tasks: Vec<Task>,
    next_id: i64,
    clock: i64,
}

impl View for Board {
    type V = BoardModel;

    closed spec fn view(&self) -> BoardModel {
        BoardModel { tasks: models(self.tasks@), next_id: self.next_id, clock: self.clock }
    }
}

pub(crate) proof fn lemma_max_position_bounds(ts: Seq<TaskModel>, b: Bucket)
    ensures
        max_position(ts, b) >= 0,
        max_position(ts, b) <= i64::MAX,
        forall|i: int|
            0 <= i < ts.len() && (#[trigger] ts[i]).bucket == b ==> ts[i].position
                <= max_position(ts, b),
    decreases ts.len(),
{
    if ts.len() > 0 {
        lemma_max_position_bounds(ts.drop_last(), b);
        assert forall|i: int|
            0 <= i < ts.len() && (#[trigger] ts[i]).bucket == b implies ts[i].position
                <= max_position(ts, b) by {
            if i < ts.len() - 1 {
                assert(ts[i] == ts.drop_last()[i]);
            }
        }
    }
}

proof fn lemma_find_task_unique(ts: Seq<TaskModel>, id: i64, j: int)
    requires
        0 <= j < ts.len(),
        ts[j].id == id,
        forall|a: int, c: int|
            0 <= a < ts.len() && 0 <= c < ts.len() && #[trigger] ts[a].id == #[trigger] ts[c].id
                ==> a == c,
    ensures
        find_task(ts, id) == Some(ts[j]),
    decreases ts.len(),
{
    if j < ts.len() - 1 {
        let r = ts.drop_last();
        assert(ts.last().id != id) by {
            assert(ts[ts.len() - 1].id == ts[j].id ==> ts.len() - 1 == j);
        }
        assert(r[j] == ts[j]);
        assert forall|a: int, c: int|
            0 <= a < r.len() && 0 <= c < r.len() && #[trigger] r[a].id == #[trigger] r[c].id
                implies a == c by {
            assert(r[a] == ts[a] && r[c] == ts[c]);
        }
        lemma_find_task_unique(r, id, j);
    }
}

proof fn lemma_find_task_absent(ts: Seq<TaskModel>, id: i64)
    requires
        forall|a: int| 0 <= a < ts.len() ==> (#[trigger] ts[a]).id != id,
    ensures
        find_task(ts, id) == None::<TaskModel>,
    decreases ts.len(),
{
    if ts.len() > 0 {
        let r = ts.drop_last();
        assert(ts[ts.len() - 1].id != id);
        assert forall|a: int| 0 <= a < r.len() implies (#[trigger] r[a]).id != id by {
            assert(r[a] == ts[a]);
        }
        lemma_find_task_absent(r, id);
    }
}

impl Board {
    pub open spec fn wf(&self) -> bool {
        board_wf(self@)
    }

    /// An empty board.
    pub fn new() -> (r: Board)
        ensures
            r.wf(),
            r@.tasks.len() == 0,
            r@.next_id == 1,
            r@.clock == 0,
    {
        let r = Board { tasks: Vec::new(), next_id: 1, clock: 0 };
        assert(models(r.tasks@) =~= Seq::<TaskModel>::empty());
        r
    }

    /// The number of rows.
    pub fn len(&self) -> (r: usize)
        ensures
            r == self@.tasks.len(),
    {
        self.tasks.len()
    }

    fn stamp_at(&self, now: i64) -> (r: i64)
        ensures
            r == stamp(self.clock, now),
    {
        if now > self.clock {
            now
        } else if self.clock < i64::MAX {
            self.clock + 1
        } else {
            self.clock
        }
    }

    /// The index of the row whose id is `id`, if any.
    fn index_of(&self, id: i64) -> (r: Option<usize>)
        requires
            self.wf(),
        ensures
            match r {
                Some(j) => j < self@.tasks.len() && self@.tasks[j as int].id == id
                    && find_task(self@.tasks, id) == Some(self@.tasks[j as int]),
                None => find_task(self@.tasks, id) == None::<TaskModel>,
            },
    {
        let n = self.tasks.len();
        let mut i: usize = 0;
        while i < n
            invariant
                self.wf(),
                n == self.tasks@.len(),
                i <= n,
                forall|a: int| 0 <= a < i ==> (#[trigger] self.tasks@[a]).id != id,
            decreases n - i,
        {
            if self.tasks[i].id == id {
                proof {
                    assert(self@.tasks[i as int] == self.tasks@[i as int]@);
                    lemma_find_task_unique(self@.tasks, id, i as int);
                }
                return Some(i);
            }
            i = i + 1;
        }
        proof {
            assert forall|a: int| 0 <= a < self@.tasks.len() implies (
            #[trigger] self@.tasks[a]).id != id by {
                assert(self@.tasks[a] == self.tasks@[a]@);
            }
            lemma_find_task_absent(self@.tasks, id);
        }
        None
    }

    /// The task whose id is `id`, if there is one.
    pub fn get(&self, id: i64) -> (r: Option<Task>)
        requires
            self.wf(),
        ensures
            match r {
                Some(t) => find_task(self@.tasks, id) == Some(t@),
                None => find_task(self@.tasks, id) == None::<TaskModel>,
            },
    {
        match self.index_of(id) {
            Some(j) => Some(self.tasks[j].duplicate()),
            None => None,
        }
    }

    /// The largest position in bucket `b`, 0 where it is empty.
    pub fn max_position(&self, b: Bucket) -> (r: i64)
        ensures
            r == max_position(self@.tasks, b),
    {
        let n = self.tasks.len();
        let mut best: i64 = 0;
        let mut i: usize = 0;
        while i < n
            invariant
                n == self.tasks@.len(),
                i <= n,
                best == max_position(self@.tasks.subrange(0, i as int), b),
            decreases n - i,
        {
            proof {
                let pre = self@.tasks.subrange(0, i + 1);
                assert(pre.drop_last() =~= self@.tasks.subrange(0, i as int));
                assert(pre.last() == self.tasks@[i as int]@);
            }
            if self.tasks[i].bucket == b && self.tasks[i].position > best {
                best = self.tasks[i].position;
            }
            i = i + 1;
        }
        assert(self@.tasks.subrange(0, n as int) =~= self@.tasks);
        best
    }
}


/// Why `create_task` turns down a title and bucket token, if it does.
pub open spec fn create_error(m: BoardModel, title: Seq<char>, bucket: Seq<char>) -> Option<
    TaskError,
> {
    if is_blank(title) {
        Some(TaskError::ValidationError)
    } else if bucket_named(bucket) is None {
        Some(TaskError::InvalidBucket)
    } else if m.next_id == i64::MAX || max_position(m.tasks, bucket_named(bucket)->0) == i64::MAX {
        Some(TaskError::StorageError)
    } else {
        None
    }
}

proof fn lemma_stamp_not_behind(clock: i64, now: i64)
    ensures
        stamp(clock, now) >= clock,
        stamp(clock, now) >= now,
{
}

proof fn lemma_update_at(ts: Seq<TaskModel>, id: i64, j: int, f: spec_fn(TaskModel) -> TaskModel)
    requires
        0 <= j < ts.len(),
        ts[j].id == id,
        forall|a: int, c: int|
            0 <= a < ts.len() && 0 <= c < ts.len() && #[trigger] ts[a].id == #[trigger] ts[c].id
                ==> a == c,
    ensures
        ts.update(j, f(ts[j])) == update_id(ts, id, f),
{
    let u = update_id(ts, id, f);
    assert forall|a: int| 0 <= a < ts.len() implies #[trigger] ts.update(j, f(ts[j]))[a] == u[a] by {
        if a != j {
            assert(ts[a].id == ts[j].id ==> a == j);
        }
    }
    assert(ts.update(j, f(ts[j])) =~= u);
}

proof fn lemma_find_task_present(ts: Seq<TaskModel>, id: i64, a: int)
    requires
        0 <= a < ts.len(),
        ts[a].id == id,
    ensures
        find_task(ts, id) is Some,
    decreases ts.len(),
{
    if ts.last().id != id {
        assert(ts.drop_last()[a] == ts[a]);
        lemma_find_task_present(ts.drop_last(), id, a);
    }
}

proof fn lemma_wf_after_update(m: BoardModel, m2: BoardModel, j: int, t2: TaskModel)
    requires
        board_wf(m),
        0 <= j < m.tasks.len(),
        m2.tasks == m.tasks.update(j, t2),
        m2.next_id == m.next_id,
        m2.clock >= m.clock,
        t2.id == m.tasks[j].id,
        task_wf(t2, m2),
    ensures
        board_wf(m2),
{
    assert forall|a: int| 0 <= a < m2.tasks.len() implies task_wf(#[trigger] m2.tasks[a], m2) by {
        if a != j {
            assert(task_wf(m.tasks[a], m));
        }
    }
    assert forall|a: int, c: int|
        0 <= a < m2.tasks.len() && 0 <= c < m2.tasks.len() && #[trigger] m2.tasks[a].id
            == #[trigger] m2.tasks[c].id implies a == c by {
        assert(m2.tasks[a].id == m.tasks[a].id);
        assert(m2.tasks[c].id == m.tasks[c].id);
        assert(m.tasks[a].id == m.tasks[c].id ==> a == c);
    }
}

proof fn lemma_without_absent(ts: Seq<TaskModel>, id: i64)
    requires
        forall|a: int| 0 <= a < ts.len() ==> (#[trigger] ts[a]).id != id,
    ensures
        without_id(ts, id) == ts,
    decreases ts.len(),
{
    if ts.len() > 0 {
        let r = ts.drop_last();
        assert(ts[ts.len() - 1].id != id);
        assert forall|a: int| 0 <= a < r.len() implies (#[trigger] r[a]).id != id by {
            assert(r[a] == ts[a]);
        }
        lemma_without_absent(r, id);
        assert(r.push(ts.last()) =~= ts);
    }
}

proof fn lemma_without_at(ts: Seq<TaskModel>, id: i64, j: int)
    requires
        0 <= j < ts.len(),
        ts[j].id == id,
        forall|a: int, c: int|
            0 <= a < ts.len() && 0 <= c < ts.len() && #[trigger] ts[a].id == #[trigger] ts[c].id
                ==> a == c,
    ensures
        without_id(ts, id) == ts.remove(j),
    decreases ts.len(),
{
    let r = ts.drop_last();
    if j == ts.len() - 1 {
        assert forall|a: int| 0 <= a < r.len() implies (#[trigger] r[a]).id != id by {
            assert(r[a] == ts[a]);
            assert(ts[a].id == ts[j].id ==> a == j);
        }
        lemma_without_absent(r, id);
        assert(ts.remove(j) =~= r);
    } else {
        assert(ts[ts.len() - 1].id != id) by {
            assert(ts[ts.len() - 1].id == ts[j].id ==> ts.len() - 1 == j);
        }
        assert(r[j] == ts[j]);
        assert forall|a: int, c: int|
            0 <= a < r.len() && 0 <= c < r.len() && #[trigger] r[a].id == #[trigger] r[c].id
                implies a == c by {
            assert(r[a] == ts[a] && r[c] == ts[c]);
        }
        lemma_without_at(r, id, j);
        assert(r.remove(j).push(ts.last()) =~= ts.remove(j));
    }
}

proof fn lemma_models_push(v: Seq<Task>, t: Task)
    ensures
        models(v.push(t)) == models(v).push(t@),
{
    assert(models(v.push(t)) =~= models(v).push(t@));
}

proof fn lemma_models_update(v: Seq<Task>, j: int, t: Task)
    requires
        0 <= j < v.len(),
    ensures
        models(v.update(j, t)) == models(v).update(j, t@),
{
    assert(models(v.update(j, t)) =~= models(v).update(j, t@));
}

proof fn lemma_models_remove(v: Seq<Task>, j: int)
    requires
        0 <= j < v.len(),
    ensures
        models(v.remove(j)) == models(v).remove(j),
{
    assert(models(v.remove(j)) =~= models(v).remove(j));
}


impl Board {
    /// Adds a task titled `title` (trimmed) to the bucket named `bucket`, at
    /// one past the bucket's largest position, not completed, stamped at
    /// `now`. A quadrant bucket gives its own category, `Today` gives
    /// `UrgentImportant`. Where it fails, the board is left as it was.
    pub fn create_task(&mut self, title: &str, bucket: &str, now: i64) -> (r: Result<Task, TaskError>)
        requires
            old(self).wf(),
        ensures
            final(self).wf(),
            match create_error(old(self)@, title@, bucket@) {
                Some(e) => r == Err::<Task, TaskError>(e) && final(self)@ == old(self)@,
                None => (r matches Ok(t) && t@ == created(
                    old(self)@,
                    title@,
                    bucket_named(bucket@)->0,
                    stamp(old(self)@.clock, now),
                ) && final(self)@ == (BoardModel {
                    tasks: old(self)@.tasks.push(t@),
                    next_id: (old(self)@.next_id + 1) as i64,
                    clock: stamp(old(self)@.clock, now),
                })),
            },
    {
        let t = trim_str(title);
        proof {
            lemma_trimmed_empty_iff_blank(title@);
        }
        if t.unicode_len() == 0 {
            return Err(TaskError::ValidationError);
        }
        let b = match parse_bucket(bucket) {
            Some(b) => b,
            None => {
                return Err(TaskError::InvalidBucket);
            },
        };
        let top = self.max_position(b);
        if self.next_id == i64::MAX || top == i64::MAX {
            return Err(TaskError::StorageError);
        }
        let st = self.stamp_at(now);
        let task = Task {
            id: self.next_id,
            title: String::from_str(t),
            task_type: TaskType::from_bucket(b),
            bucket: b,
            completed: false,
            position: top + 1,
            created_at: st,
            updated_at: st,
        };
        let out = task.duplicate();
        let ghost m = self@;
        proof {
            lemma_stamp_not_behind(m.clock, now);
            lemma_max_position_bounds(m.tasks, b);
            lemma_models_push(self.tasks@, task);
        }
        self.tasks.push(task);
        self.next_id = self.next_id + 1;
        self.clock = st;
        proof {
            let m2 = self@;
            assert(m2.tasks == m.tasks.push(out@));
            assert forall|a: int| 0 <= a < m2.tasks.len() implies task_wf(#[trigger] m2.tasks[a], m2) by {
                if a < m.tasks.len() {
                    assert(task_wf(m.tasks[a], m));
                }
            }
            assert forall|a: int, c: int|
                0 <= a < m2.tasks.len() && 0 <= c < m2.tasks.len() && #[trigger] m2.tasks[a].id
                    == #[trigger] m2.tasks[c].id implies a == c by {
                if a < m.tasks.len() {
                    assert(task_wf(m.tasks[a], m));
                }
                if c < m.tasks.len() {
                    assert(task_wf(m.tasks[c], m));
                }
            }
        }
        Ok(out)
    }

    /// Flips the completion of task `id`, stamped at `now`; its bucket and
    /// position stay. Fails with `NotFound`, changing nothing, where no task
    /// has that id.
    pub fn toggle_task(&mut self, id: i64, now: i64) -> (r: Result<Task, TaskError>)
        requires
            old(self).wf(),
        ensures
            final(self).wf(),
            match find_task(old(self)@.tasks, id) {
                None => r == Err::<Task, TaskError>(TaskError::NotFound)
                    && final(self)@ == old(self)@,
                Some(t) => (r matches Ok(u) && u@ == toggled(t, stamp(old(self)@.clock, now)))
                    && final(self)@ == toggle_model(old(self)@, id, now),
            },
    {
        let j = match self.index_of(id) {
            Some(j) => j,
            None => {
                return Err(TaskError::NotFound);
            },
        };
        let st = self.stamp_at(now);
        let ghost m = self@;
        let mut t = self.tasks[j].duplicate();
        t.completed = !t.completed;
        t.updated_at = st;
        let out = t.duplicate();
        proof {
            lemma_stamp_not_behind(m.clock, now);
            lemma_models_update(self.tasks@, j as int, t);
            lemma_update_at(m.tasks, id, j as int, |u: TaskModel| toggled(u, st));
            assert(task_wf(m.tasks[j as int], m));
        }
        self.tasks.set(j, t);
        self.clock = st;
        proof {
            lemma_wf_after_update(m, self@, j as int, out@);
        }
        Ok(out)
    }

    /// Gives task `id` the title `title` (trimmed), stamped at `now`. Fails
    /// with `ValidationError` where the title is blank, else with `NotFound`
    /// where no task has that id; either way nothing changes.
    pub fn edit_task_title(&mut self, id: i64, title: &str, now: i64) -> (r: Result<(), TaskError>)
        requires
            old(self).wf(),
        ensures
            final(self).wf(),
            is_blank(title@) ==> r == Err::<(), TaskError>(TaskError::ValidationError)
                && final(self)@ == old(self)@,
            !is_blank(title@) && find_task(old(self)@.tasks, id) is None ==> r == Err::<(), TaskError>(
                TaskError::NotFound,
            ) && final(self)@ == old(self)@,
            !is_blank(title@) && find_task(old(self)@.tasks, id) is Some ==> r == Ok::<(), TaskError>(())
                && final(self)@ == retitle_model(old(self)@, id, trimmed(title@), now),
    {
        let tt = trim_str(title);
        proof {
            lemma_trimmed_empty_iff_blank(title@);
        }
        if tt.unicode_len() == 0 {
            return Err(TaskError::ValidationError);
        }
        let j = match self.index_of(id) {
            Some(j) => j,
            None => {
                return Err(TaskError::NotFound);
            },
        };
        let st = self.stamp_at(now);
        let ghost m = self@;
        let mut t = self.tasks[j].duplicate();
        t.title = String::from_str(tt);
        t.updated_at = st;
        proof {
            lemma_stamp_not_behind(m.clock, now);
            lemma_models_update(self.tasks@, j as int, t);
            lemma_update_at(m.tasks, id, j as int, |u: TaskModel| retitled(u, trimmed(title@), st));
            assert(task_wf(m.tasks[j as int], m));
        }
        let ghost tv = t@;
        self.tasks.set(j, t);
        self.clock = st;
        proof {
            lemma_wf_after_update(m, self@, j as int, tv);
        }
        Ok(())
    }

    /// Removes task `id`; where no task has that id, nothing changes and
    /// nothing fails. Other positions are left as they are.
    pub fn delete_task(&mut self, id: i64)
        requires
            old(self).wf(),
        ensures
            final(self).wf(),
            final(self)@ == (BoardModel { tasks: without_id(old(self)@.tasks, id), ..old(self)@ }),
    {
        let ghost m = self@;
        match self.index_of(id) {
            Some(j) => {
                proof {
                    lemma_without_at(m.tasks, id, j as int);
                    lemma_models_remove(self.tasks@, j as int);
                }
                self.tasks.remove(j);
                proof {
                    let m2 = self@;
                    assert forall|a: int| 0 <= a < m2.tasks.len() implies task_wf(
                        #[trigger] m2.tasks[a],
                        m2,
                    ) by {
                        if a < j {
                            assert(m2.tasks[a] == m.tasks[a]);
                            assert(task_wf(m.tasks[a], m));
                        } else {
                            assert(m2.tasks[a] == m.tasks[a + 1]);
                            assert(task_wf(m.tasks[a + 1], m));
                        }
                    }
                    assert forall|a: int, c: int|
                        0 <= a < m2.tasks.len() && 0 <= c < m2.tasks.len() && #[trigger] m2.tasks[a].id
                            == #[trigger] m2.tasks[c].id implies a == c by {
                        let a2 = if a < j { a } else { a + 1 };
                        let c2 = if c < j { c } else { c + 1 };
                        assert(m2.tasks[a] == m.tasks[a2]);
                        assert(m2.tasks[c] == m.tasks[c2]);
                        assert(m.tasks[a2].id == m.tasks[c2].id ==> a2 == c2);
                    }
                }
            },
            None => {
                proof {
                    assert forall|a: int| 0 <= a < m.tasks.len() implies (#[trigger] m.tasks[a]).id
                        != id by {
                        if m.tasks[a].id == id {
                            lemma_find_task_present(m.tasks, id, a);
                        }
                    }
                    lemma_without_absent(m.tasks, id);
                }
            },
        }
    }
}


proof fn lemma_last_index_bounds(ids: Seq<i64>, id: i64)
    ensures
        -1 <= last_index(ids, id) < ids.len(),
        last_index(ids, id) >= 0 ==> ids[last_index(ids, id)] == id,
    decreases ids.len(),
{
    if ids.len() > 0 && ids.last() != id {
        lemma_last_index_bounds(ids.drop_last(), id);
    }
}

proof fn lemma_last_index_push(ids: Seq<i64>, x: i64, id: i64)
    ensures
        last_index(ids.push(x), id) == if x == id {
            ids.len() as int
        } else {
            last_index(ids, id)
        },
{
    assert(ids.push(x).drop_last() =~= ids);
}

impl Board {
    /// Moves task `id` into the bucket named `target_bucket` at one past
    /// `target_index` (at 1 without one), stamped at `now`. A quadrant bucket
    /// sets the category to its own; `Today` keeps the category. Other tasks'
    /// positions are not shifted. Fails with `InvalidBucket` where the token
    /// names no bucket, else with `NotFound` where no task has that id;
    /// either way nothing changes.
    pub fn move_task(
        &mut self,
        id: i64,
        target_bucket: &str,
        target_index: Option<usize>,
        now: i64,
    ) -> (r: Result<Task, TaskError>)
        requires
            old(self).wf(),
            target_index matches Some(k) ==> k < i64::MAX,
        ensures
            final(self).wf(),
            bucket_named(target_bucket@) is None ==> r == Err::<Task, TaskError>(
                TaskError::InvalidBucket,
            ) && final(self)@ == old(self)@,
            bucket_named(target_bucket@) is Some && find_task(old(self)@.tasks, id) is None ==> r
                == Err::<Task, TaskError>(TaskError::NotFound) && final(self)@ == old(self)@,
            bucket_named(target_bucket@) matches Some(b) ==> (find_task(old(self)@.tasks, id) matches Some(t)
                ==> (r matches Ok(u) && u@ == moved(
                t,
                b,
                target_position(target_index) as i64,
                stamp(old(self)@.clock, now),
            )) && final(self)@ == move_model(
                old(self)@,
                id,
                b,
                target_position(target_index) as i64,
                now,
            )),
    {
        let b = match parse_bucket(target_bucket) {
            Some(b) => b,
            None => {
                return Err(TaskError::InvalidBucket);
            },
        };
        let j = match self.index_of(id) {
            Some(j) => j,
            None => {
                return Err(TaskError::NotFound);
            },
        };
        let pos: i64 = match target_index {
            Some(k) => k as i64 + 1,
            None => 1,
        };
        let st = self.stamp_at(now);
        let ghost m = self@;
        let mut t = self.tasks[j].duplicate();
        match category_for_bucket(b) {
            Some(q) => {
                t.task_type = q;
            },
            None => {},
        }
        t.bucket = b;
        t.position = pos;
        t.updated_at = st;
        let out = t.duplicate();
        proof {
            lemma_stamp_not_behind(m.clock, now);
            lemma_models_update(self.tasks@, j as int, t);
            lemma_update_at(m.tasks, id, j as int, |u: TaskModel| moved(u, b, pos, st));
            assert(task_wf(m.tasks[j as int], m));
        }
        self.tasks.set(j, t);
        self.clock = st;
        proof {
            lemma_wf_after_update(m, self@, j as int, out@);
        }
        Ok(out)
    }

    /// Gives each listed task one past its index in `ordered_ids` as its
    /// position (the last index where an id is listed twice), stamped at
    /// `now`. Ids of no task are skipped. Fails with `InvalidBucket`,
    /// changing nothing, where `bucket` names no bucket.
    pub fn reorder_bucket(&mut self, bucket: &str, ordered_ids: &Vec<i64>, now: i64) -> (r: Result<
        (),
        TaskError,
    >)
        requires
            old(self).wf(),
            ordered_ids@.len() < i64::MAX,
        ensures
            final(self).wf(),
            bucket_named(bucket@) is None ==> r == Err::<(), TaskError>(TaskError::InvalidBucket)
                && final(self)@ == old(self)@,
            bucket_named(bucket@) is Some ==> r == Ok::<(), TaskError>(()) && final(self)@
                == reorder_model(old(self)@, ordered_ids@, now),
    {
        if parse_bucket(bucket).is_none() {
            return Err(TaskError::InvalidBucket);
        }
        let ghost m0 = self@;
        let st = self.stamp_at(now);
        proof {
            lemma_stamp_not_behind(m0.clock, now);
            let m1 = BoardModel { clock: st, ..m0 };
            assert forall|a: int| 0 <= a < m1.tasks.len() implies task_wf(#[trigger] m1.tasks[a], m1) by {
                assert(task_wf(m0.tasks[a], m0));
            }
        }
        self.clock = st;
        let n = ordered_ids.len();
        let mut k: usize = 0;
        while k < n
            invariant
                self.wf(),
                n == ordered_ids@.len(),
                n < i64::MAX,
                k <= n,
                self@.next_id == m0.next_id,
                self@.clock == st,
                self@.tasks == m0.tasks.map_values(
                    |t: TaskModel| reordered(t, ordered_ids@.subrange(0, k as int), st),
                ),
            decreases n - k,
        {
            let id = ordered_ids[k];
            let ghost pre = ordered_ids@.subrange(0, k as int);
            let ghost post = ordered_ids@.subrange(0, k + 1);
            proof {
                assert(post =~= pre.push(id));
                assert forall|z: i64| #[trigger] last_index(post, z) == if id == z {
                    k as int
                } else {
                    last_index(pre, z)
                } by {
                    lemma_last_index_push(pre, id, z);
                }
            }
            let ghost mk = self@;
            match self.index_of(id) {
                Some(j) => {
                    let mut t = self.tasks[j].duplicate();
                    t.position = k as i64 + 1;
                    t.updated_at = st;
                    proof {
                        lemma_models_update(self.tasks@, j as int, t);
                        assert(task_wf(mk.tasks[j as int], mk));
                    }
                    let ghost tv = t@;
                    self.tasks.set(j, t);
                    proof {
                        lemma_wf_after_update(mk, self@, j as int, tv);
                        let target = m0.tasks.map_values(|u: TaskModel| reordered(u, post, st));
                        assert forall|a: int| 0 <= a < target.len() implies #[trigger] self@.tasks[a]
                            == target[a] by {
                            lemma_last_index_bounds(pre, m0.tasks[a].id);
                            if a != j {
                                assert(mk.tasks[a].id == mk.tasks[j as int].id ==> a == j);
                            }
                        }
                        assert(self@.tasks =~= target);
                    }
                },
                None => {
                    proof {
                        let target = m0.tasks.map_values(|u: TaskModel| reordered(u, post, st));
                        assert forall|a: int| 0 <= a < target.len() implies #[trigger] self@.tasks[a]
                            == target[a] by {
                            if mk.tasks[a].id == id {
                                lemma_find_task_present(mk.tasks, id, a);
                            }
                        }
                        assert(self@.tasks =~= target);
                    }
                },
            }
            k = k + 1;
        }
        proof {
            assert(ordered_ids@.subrange(0, n as int) =~= ordered_ids@);
        }
        Ok(())
    }
}


/// Whether a listing of bucket `b` shows task `t`.
pub open spec fn shown(t: TaskModel, b: Bucket, include_completed: bool) -> bool {
    t.bucket == b && (include_completed || !t.completed)
}

/// `s` with `t` placed after every entry whose position is not above its own.
pub open spec fn insert_by_position(s: Seq<TaskModel>, t: TaskModel) -> Seq<TaskModel>
    decreases s.len(),
{
    if s.len() == 0 || s.last().position <= t.position {
        s.push(t)
    } else {
        insert_by_position(s.drop_last(), t).push(s.last())
    }
}

/// The tasks of bucket `b` (without completed ones unless
/// `include_completed`), in ascending position; equal positions keep the
/// order of the rows.
pub open spec fn bucket_listing(ts: Seq<TaskModel>, b: Bucket, include_completed: bool) -> Seq<
    TaskModel,
>
    decreases ts.len(),
{
    if ts.len() == 0 {
        Seq::empty()
    } else {
        let rest = bucket_listing(ts.drop_last(), b, include_completed);
        if shown(ts.last(), b, include_completed) {
            insert_by_position(rest, ts.last())
        } else {
            rest
        }
    }
}

/// The buckets in the order a board listing gives them.
pub open spec fn bucket_at(i: int) -> Bucket {
    if i == 0 {
        Bucket::UrgentImportant
    } else if i == 1 {
        Bucket::UrgentNotImportant
    } else if i == 2 {
        Bucket::NotUrgentImportant
    } else if i == 3 {
        Bucket::NotUrgentNotImportant
    } else {
        Bucket::Today
    }
}

proof fn lemma_insert_at(s: Seq<TaskModel>, t: TaskModel, k: int)
    requires
        0 <= k <= s.len(),
        forall|i: int| k <= i < s.len() ==> (#[trigger] s[i]).position > t.position,
        k > 0 ==> s[k - 1].position <= t.position,
    ensures
        insert_by_position(s, t) == s.insert(k, t),
    decreases s.len(),
{
    if k == s.len() {
        assert(s.push(t) =~= s.insert(k, t));
    } else {
        let r = s.drop_last();
        assert(s[s.len() - 1].position > t.position);
        assert forall|i: int| k <= i < r.len() implies (#[trigger] r[i]).position > t.position by {
            assert(r[i] == s[i]);
        }
        if k > 0 {
            assert(r[k - 1] == s[k - 1]);
        }
        lemma_insert_at(r, t, k);
        assert(r.insert(k, t).push(s.last()) =~= s.insert(k, t));
    }
}

impl Board {
    /// The tasks of bucket `b` in ascending position, completed ones only
    /// where `include_completed`.
    pub fn list_bucket(&self, b: Bucket, include_completed: bool) -> (r: Vec<Task>)
        ensures
            models(r@) == bucket_listing(self@.tasks, b, include_completed),
    {
        let n = self.tasks.len();
        let mut out: Vec<Task> = Vec::new();
        let mut i: usize = 0;
        proof {
            assert(models(out@) =~= Seq::<TaskModel>::empty());
        }
        while i < n
            invariant
                n == self.tasks@.len(),
                i <= n,
                models(out@) == bucket_listing(self@.tasks.subrange(0, i as int), b, include_completed),
            decreases n - i,
        {
            let ghost pre = self@.tasks.subrange(0, i + 1);
            proof {
                assert(pre.drop_last() =~= self@.tasks.subrange(0, i as int));
                assert(pre.last() == self.tasks@[i as int]@);
            }
            let t = &self.tasks[i];
            if t.bucket == b && (include_completed || !t.completed) {
                let mut k: usize = out.len();
                while k > 0 && out[k - 1].position > t.position
                    invariant
                        k <= out@.len(),
                        forall|j: int| k <= j < out@.len() ==> (#[trigger] out@[j]).position > t.position,
                    decreases k,
                {
                    k = k - 1;
                }
                proof {
                    let s = models(out@);
                    assert forall|j: int| k <= j < s.len() implies (#[trigger] s[j]).position
                        > t.position by {
                        assert(s[j] == out@[j]@);
                    }
                    if k > 0 {
                        assert(s[k - 1] == out@[k - 1]@);
                    }
                    lemma_insert_at(s, t@, k as int);
                }
                let c = t.duplicate();
                let ghost before = out@;
                out.insert(k, c);
                proof {
                    assert(models(out@) =~= models(before).insert(k as int, c@));
                }
            }
            i = i + 1;
        }
        proof {
            assert(self@.tasks.subrange(0, n as int) =~= self@.tasks);
        }
        out
    }

    /// Every bucket with its listing, in the order of `bucket_at`.
    pub fn list_board(&self, include_completed: bool) -> (r: Vec<(Bucket, Vec<Task>)>)
        ensures
            r@.len() == 5,
            forall|i: int|
                0 <= i < 5 ==> (#[trigger] r@[i]).0 == bucket_at(i) && models(r@[i].1@)
                    == bucket_listing(self@.tasks, bucket_at(i), include_completed),
    {
        let mut r: Vec<(Bucket, Vec<Task>)> = Vec::new();
        r.push((Bucket::UrgentImportant, self.list_bucket(Bucket::UrgentImportant, include_completed)));
        r.push((Bucket::UrgentNotImportant, self.list_bucket(Bucket::UrgentNotImportant, include_completed)));
        r.push((Bucket::NotUrgentImportant, self.list_bucket(Bucket::NotUrgentImportant, include_completed)));
        r.push((
            Bucket::NotUrgentNotImportant,
            self.list_bucket(Bucket::NotUrgentNotImportant, include_completed),
        ));
        r.push((Bucket::Today, self.list_bucket(Bucket::Today, include_completed)));
        r
    }
}


/// Relies on chrono's `From<SystemTime> for DateTime<Utc>` and
/// `DateTime::timestamp_millis`: the milliseconds since the Unix epoch at the
/// time of the call, negative where the system clock reads before 1970.
/// Nothing is promised of the reading.
#[verifier::external_body]
fn clock_millis() -> (r: i64) {
    chrono::DateTime::<chrono::Utc>::from(std::time::SystemTime::now()).timestamp_millis()
}

/// Why `restore_task` turns down the stored row `t`, if it does.
pub open spec fn restore_error(m: BoardModel, t: TaskModel) -> Option<TaskError> {
    if is_blank(t.title) {
        Some(TaskError::ValidationError)
    } else if t.id < 1 || t.id == i64::MAX || find_task(m.tasks, t.id) is Some || t.position < 1
        || (category_of(t.bucket) matches Some(q) && q != t.task_type) || t.created_at
        > t.updated_at {
        Some(TaskError::StorageError)
    } else {
        None
    }
}

/// The board after the stored row `t` is taken in.
pub open spec fn restore_model(m: BoardModel, t: TaskModel) -> BoardModel {
    BoardModel {
        tasks: m.tasks.push(t),
        next_id: if t.id < m.next_id {
            m.next_id
        } else {
            (t.id + 1) as i64
        },
        clock: if t.updated_at > m.clock {
            t.updated_at
        } else {
            m.clock
        },
    }
}

impl Board {
    /// The time stamp an operation run now would record: the clock's
    /// reading, or one past the board's latest stamp where the reading is
    /// not ahead of it.
    pub fn next_stamp(&self) -> (r: i64)
        ensures
            stamp(self@.clock, r) == r,
            r > self@.clock || self@.clock == i64::MAX,
    {
        let now = clock_millis();
        self.stamp_at(now)
    }

    /// Takes in a stored task row as it is, keeping ids fresh and the clock
    /// not behind any stamp. Fails with `ValidationError` where the title is
    /// blank, and with `StorageError` where the row would break the board's
    /// invariant (its id is not positive, is the largest `i64` or is taken;
    /// its position is not positive; its category differs from its quadrant
    /// bucket; it was updated before it was created). Where it fails,
    /// nothing changes.
    pub fn restore_task(&mut self, t: Task) -> (r: Result<(), TaskError>)
        requires
            old(self).wf(),
        ensures
            final(self).wf(),
            match restore_error(old(self)@, t@) {
                Some(e) => r == Err::<(), TaskError>(e) && final(self)@ == old(self)@,
                None => r == Ok::<(), TaskError>(()) && final(self)@ == restore_model(old(self)@, t@),
            },
    {
        let tt = trim_str(t.title.as_str());
        proof {
            lemma_trimmed_empty_iff_blank(t.title@);
        }
        if tt.unicode_len() == 0 {
            return Err(TaskError::ValidationError);
        }
        if t.id < 1 || t.id == i64::MAX || self.index_of(t.id).is_some() || t.position < 1 {
            return Err(TaskError::StorageError);
        }
        match category_for_bucket(t.bucket) {
            Some(q) => {
                if q != t.task_type {
                    return Err(TaskError::StorageError);
                }
            },
            None => {},
        }
        if t.created_at > t.updated_at {
            return Err(TaskError::StorageError);
        }
        let ghost m = self@;
        let ghost tv = t@;
        if t.id >= self.next_id {
            self.next_id = t.id + 1;
        }
        if t.updated_at > self.clock {
            self.clock = t.updated_at;
        }
        proof {
            lemma_models_push(self.tasks@, t);
        }
        self.tasks.push(t);
        proof {
            let m2 = self@;
            assert(m2 == restore_model(m, tv));
            assert forall|a: int| 0 <= a < m2.tasks.len() implies task_wf(#[trigger] m2.tasks[a], m2) by {
                if a < m.tasks.len() {
                    assert(task_wf(m.tasks[a], m));
                }
            }
            assert forall|a: int, c: int|
                0 <= a < m2.tasks.len() && 0 <= c < m2.tasks.len() && #[trigger] m2.tasks[a].id
                    == #[trigger] m2.tasks[c].id implies a == c by {
                if a < m.tasks.len() && c == m.tasks.len() {
                    lemma_find_task_present(m.tasks, tv.id, a);
                }
                if c < m.tasks.len() && a == m.tasks.len() {
                    lemma_find_task_present(m.tasks, tv.id, c);
                }
                if a < m.tasks.len() && c < m.tasks.len() {
                    assert(m.tasks[a].id == m.tasks[c].id ==> a == c);
                }
            }
        }
        Ok(())
    }
}


/// `s` with `t` placed after every entry updated no earlier than it.
pub open spec fn insert_by_recency(s: Seq<TaskModel>, t: TaskModel) -> Seq<TaskModel>
    decreases s.len(),
{
    if s.len() == 0 || s.last().updated_at >= t.updated_at {
        s.push(t)
    } else {
        insert_by_recency(s.drop_last(), t).push(s.last())
    }
}

/// The completed tasks, latest update first; equal stamps keep the order of
/// the rows.
pub open spec fn completed_listing(ts: Seq<TaskModel>) -> Seq<TaskModel>
    decreases ts.len(),
{
    if ts.len() == 0 {
        Seq::empty()
    } else {
        let rest = completed_listing(ts.drop_last());
        if ts.last().completed {
            insert_by_recency(rest, ts.last())
        } else {
            rest
        }
    }
}

proof fn lemma_insert_recency_at(s: Seq<TaskModel>, t: TaskModel, k: int)
    requires
        0 <= k <= s.len(),
        forall|i: int| k <= i < s.len() ==> (#[trigger] s[i]).updated_at < t.updated_at,
        k > 0 ==> s[k - 1].updated_at >= t.updated_at,
    ensures
        insert_by_recency(s, t) == s.insert(k, t),
    decreases s.len(),
{
    if k == s.len() {
        assert(s.push(t) =~= s.insert(k, t));
    } else {
        let r = s.drop_last();
        assert(s[s.len() - 1].updated_at < t.updated_at);
        assert forall|i: int| k <= i < r.len() implies (#[trigger] r[i]).updated_at < t.updated_at by {
            assert(r[i] == s[i]);
        }
        if k > 0 {
            assert(r[k - 1] == s[k - 1]);
        }
        lemma_insert_recency_at(r, t, k);
        assert(r.insert(k, t).push(s.last()) =~= s.insert(k, t));
    }
}

impl Board {
    /// At most `limit` completed tasks, latest update first.
    pub fn completed_tasks(&self, limit: usize) -> (r: Vec<Task>)
        ensures
            limit <= completed_listing(self@.tasks).len() ==> models(r@) == completed_listing(
                self@.tasks,
            ).take(limit as int),
            limit > completed_listing(self@.tasks).len() ==> models(r@) == completed_listing(
                self@.tasks,
            ),
    {
        let n = self.tasks.len();
        let mut out: Vec<Task> = Vec::new();
        let mut i: usize = 0;
        proof {
            assert(models(out@) =~= Seq::<TaskModel>::empty());
        }
        while i < n
            invariant
                n == self.tasks@.len(),
                i <= n,
                models(out@) == completed_listing(self@.tasks.subrange(0, i as int)),
            decreases n - i,
        {
            let ghost pre = self@.tasks.subrange(0, i + 1);
            proof {
                assert(pre.drop_last() =~= self@.tasks.subrange(0, i as int));
                assert(pre.last() == self.tasks@[i as int]@);
            }
            let t = &self.tasks[i];
            if t.completed {
                let mut k: usize = out.len();
                while k > 0 && out[k - 1].updated_at < t.updated_at
                    invariant
                        k <= out@.len(),
                        forall|j: int| k <= j < out@.len() ==> (#[trigger] out@[j]).updated_at < t.updated_at,
                    decreases k,
                {
                    k = k - 1;
                }
                proof {
                    let s = models(out@);
                    assert forall|j: int| k <= j < s.len() implies (#[trigger] s[j]).updated_at
                        < t.updated_at by {
                        assert(s[j] == out@[j]@);
                    }
                    if k > 0 {
                        assert(s[k - 1] == out@[k - 1]@);
                    }
                    lemma_insert_recency_at(s, t@, k as int);
                }
                let c = t.duplicate();
                let ghost before = out@;
                out.insert(k, c);
                proof {
                    assert(models(out@) =~= models(before).insert(k as int, c@));
                }
            }
            i = i + 1;
        }
        proof {
            assert(self@.tasks.subrange(0, n as int) =~= self@.tasks);
        }
        let ghost full = out@;
        out.truncate(limit);
        proof {
            if limit <= full.len() {
                assert(models(out@) =~= models(full).take(limit as int));
            }
        }
        out
    }
}

} // verus!
