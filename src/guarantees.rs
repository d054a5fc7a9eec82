use vstd::prelude::*;
use crate::board::{
    lemma_max_position_bounds,
    BoardModel, TaskError, TaskModel, board_wf, create_error, find_task, max_position, move_model,
    moved, next_position, bucket_listing, created, completed_listing, insert_by_recency, insert_by_position, shown, reorder_model, stamp, task_wf, toggle_model, toggled, update_id, without_id,
};
use crate::taxonomy::{Bucket, TaskType, bucket_token, category_of, task_type_token};
use crate::text::is_blank;

verus! {

proof fn lemma_find_update(ts: Seq<TaskModel>, id: i64, f: spec_fn(TaskModel) -> TaskModel)
    requires
        forall|t: TaskModel| #[trigger] f(t).id == t.id,
    ensures
        find_task(update_id(ts, id, f), id) == match find_task(ts, id) {
            Some(t) => Some(f(t)),
            None => None,
        },
    decreases ts.len(),
{
    if ts.len() > 0 {
        let r = ts.drop_last();
        assert(update_id(ts, id, f).drop_last() =~= update_id(r, id, f));
        lemma_find_update(r, id, f);
    }
}

/// Appending tasks to bucket `b` one after another, each at the bucket's
/// next position (as `Board::create_task` does), gives positive positions
/// that rise in the order of insertion and lie above every position the
/// bucket held before.
pub proof fn lemma_appends_ascend(ts: Seq<TaskModel>, b: Bucket, added: Seq<TaskModel>)
    requires
        forall|i: int|
            0 <= i < added.len() ==> (#[trigger] added[i]).bucket == b && added[i].position
                == next_position(ts + added.take(i), b),
    ensures
        forall|i: int| 0 <= i < added.len() ==> (#[trigger] added[i]).position >= 1,
        forall|i: int, j: int|
            0 <= i < j < added.len() ==> (#[trigger] added[i]).position < (#[trigger] added[j]).position,
        forall|k: int, i: int|
            0 <= k < ts.len() && 0 <= i < added.len() && (#[trigger] ts[k]).bucket == b
                ==> ts[k].position < (#[trigger] added[i]).position,
{
    assert forall|i: int| 0 <= i < added.len() implies (#[trigger] added[i]).position >= 1 by {
        lemma_max_position_bounds(ts + added.take(i), b);
    }
    assert forall|i: int, j: int| 0 <= i < j < added.len() implies (
    #[trigger] added[i]).position < (#[trigger] added[j]).position by {
        let pre = ts + added.take(j);
        assert(pre[ts.len() + i] == added[i]);
        lemma_max_position_bounds(pre, b);
    }
    assert forall|k: int, i: int|
        0 <= k < ts.len() && 0 <= i < added.len() && (#[trigger] ts[k]).bucket == b implies ts[k].position
        < (#[trigger] added[i]).position by {
        let pre = ts + added.take(i);
        assert(pre[k] == ts[k]);
        lemma_max_position_bounds(pre, b);
    }
}

/// Each row's id, bucket and position.
pub open spec fn placements(ts: Seq<TaskModel>) -> Seq<(i64, Bucket, i64)> {
    ts.map_values(|t: TaskModel| (t.id, t.bucket, t.position))
}

/// Reordering twice by the same ids leaves every task where the first
/// reorder put it; only update times may differ.
pub proof fn lemma_reorder_idempotent(m: BoardModel, ids: Seq<i64>, now1: i64, now2: i64)
    ensures
        reorder_model(reorder_model(m, ids, now1), ids, now2).tasks.len() == reorder_model(m, ids, now1).tasks.len(),
        forall|i: int|
            0 <= i < reorder_model(m, ids, now1).tasks.len() ==> {
                let a = reorder_model(m, ids, now1).tasks[i];
                let b = #[trigger] reorder_model(reorder_model(m, ids, now1), ids, now2).tasks[i];
                b == (TaskModel { updated_at: b.updated_at, ..a })
            },
        placements(reorder_model(reorder_model(m, ids, now1), ids, now2).tasks) == placements(
            reorder_model(m, ids, now1).tasks,
        ),
{
    let once = reorder_model(m, ids, now1);
    let twice = reorder_model(once, ids, now2);
    assert(placements(twice.tasks) =~= placements(once.tasks));
}

/// A move into `Today` keeps the task's category; a move into a quadrant
/// bucket gives it that quadrant, whatever it had.
pub proof fn lemma_move_category(m: BoardModel, id: i64, b: Bucket, pos: i64, now: i64)
    ensures
        find_task(m.tasks, id) matches Some(t) ==> find_task(move_model(m, id, b, pos, now).tasks, id)
            matches Some(u) && u.bucket == b && (b == Bucket::Today ==> u.task_type == t.task_type)
            && (forall|q: TaskType| category_of(b) == Some(q) ==> u.task_type == q)
            && (b != Bucket::Today ==> task_type_token(u.task_type) == bucket_token(b)),
{
    let st = stamp(m.clock, now);
    lemma_find_update(m.tasks, id, |t: TaskModel| moved(t, b, pos, st));
}

/// Toggling a task twice gives it back its completion, and each toggle
/// moves its update time forward; the clock and the second time must leave
/// room to advance.
pub proof fn lemma_toggle_twice(m: BoardModel, id: i64, now1: i64, now2: i64)
    requires
        board_wf(m),
        find_task(m.tasks, id) is Some,
        m.clock < i64::MAX - 1,
        now1 < i64::MAX,
    ensures
        ({
            let t0 = find_task(m.tasks, id)->0;
            let once = toggle_model(m, id, now1);
            let twice = toggle_model(once, id, now2);
            &&& find_task(once.tasks, id) matches Some(t1)
            &&& find_task(twice.tasks, id) matches Some(t2)
            &&& t1.completed == !t0.completed
            &&& t2.completed == t0.completed
            &&& t0.updated_at < t1.updated_at < t2.updated_at
        }),
{
    let t0 = find_task(m.tasks, id)->0;
    let once = toggle_model(m, id, now1);
    let st1 = stamp(m.clock, now1);
    let st2 = stamp(once.clock, now2);
    lemma_find_update(m.tasks, id, |t: TaskModel| toggled(t, st1));
    lemma_find_update(once.tasks, id, |t: TaskModel| toggled(t, st2));
    lemma_find_in_wf(m, id);
}

proof fn lemma_find_in_wf(m: BoardModel, id: i64)
    requires
        board_wf(m),
    ensures
        find_task(m.tasks, id) matches Some(t) ==> t.updated_at <= m.clock,
    decreases m.tasks.len(),
{
    if m.tasks.len() > 0 {
        assert(task_wf(m.tasks[m.tasks.len() - 1], m));
        let m2 = BoardModel { tasks: m.tasks.drop_last(), ..m };
        assert forall|a: int| 0 <= a < m2.tasks.len() implies task_wf(#[trigger] m2.tasks[a], m2) by {
            assert(task_wf(m.tasks[a], m));
        }
        assert forall|a: int, c: int|
            0 <= a < m2.tasks.len() && 0 <= c < m2.tasks.len() && #[trigger] m2.tasks[a].id
                == #[trigger] m2.tasks[c].id implies a == c by {
            assert(m.tasks[a].id == m.tasks[c].id ==> a == c);
        }
        lemma_find_in_wf(m2, id);
    }
}

/// After a delete no task has the id, so a toggle of it finds nothing; a
/// delete of an id that no task has changes nothing.
pub proof fn lemma_delete_removes(ts: Seq<TaskModel>, id: i64)
    ensures
        find_task(without_id(ts, id), id) is None,
        find_task(ts, id) is None ==> without_id(ts, id) == ts,
    decreases ts.len(),
{
    if ts.len() > 0 {
        lemma_delete_removes(ts.drop_last(), id);
        let w = without_id(ts.drop_last(), id);
        assert(w.push(ts.last()).drop_last() =~= w);
        if find_task(ts, id) is None {
            assert(ts.drop_last().push(ts.last()) =~= ts);
        }
    }
}

/// A title of nothing but white space is turned down, whatever the bucket.
pub proof fn lemma_blank_title_rejected(m: BoardModel, title: Seq<char>, bucket: Seq<char>)
    requires
        is_blank(title),
    ensures
        create_error(m, title, bucket) == Some(TaskError::ValidationError),
{
}


/// Positions do not fall from one entry to the next.
pub open spec fn sorted_by_position(s: Seq<TaskModel>) -> bool {
    forall|i: int, j: int| 0 <= i < j < s.len() ==> (#[trigger] s[i]).position <= (#[trigger] s[j]).position
}

proof fn lemma_insert_by_position(s: Seq<TaskModel>, t: TaskModel)
    ensures
        insert_by_position(s, t).to_multiset() == s.to_multiset().insert(t),
        sorted_by_position(s) ==> sorted_by_position(insert_by_position(s, t)),
    decreases s.len(),
{
    broadcast use vstd::seq_lib::group_to_multiset_ensures;

    if s.len() == 0 || s.last().position <= t.position {
        if sorted_by_position(s) && s.len() > 0 {
            let u = s.push(t);
            assert forall|i: int, j: int| 0 <= i < j < u.len() implies (#[trigger] u[i]).position
                <= (#[trigger] u[j]).position by {
                if j == s.len() {
                    assert(s[i].position <= s[s.len() - 1].position || i == s.len() - 1);
                }
            }
        }
    } else {
        let d = s.drop_last();
        let l = s.last();
        lemma_insert_by_position(d, t);
        let r = insert_by_position(d, t);
        assert(d.push(l) =~= s);
        assert(s.to_multiset() =~= d.to_multiset().insert(l));
        assert(r.push(l).to_multiset() =~= r.to_multiset().insert(l));
        if sorted_by_position(s) {
            assert(sorted_by_position(d)) by {
                assert forall|i: int, j: int| 0 <= i < j < d.len() implies (#[trigger] d[i]).position
                    <= (#[trigger] d[j]).position by {
                    assert(d[i] == s[i] && d[j] == s[j]);
                }
            }
            let u = r.push(l);
            assert forall|i: int, j: int| 0 <= i < j < u.len() implies (#[trigger] u[i]).position
                <= (#[trigger] u[j]).position by {
                if j == r.len() {
                    let x = r[i];
                    assert(r.contains(x));
                    assert(r.to_multiset().count(x) > 0);
                    if x != t {
                        assert(d.to_multiset().count(x) > 0);
                        assert(d.contains(x));
                        let k = choose|k: int| 0 <= k < d.len() && d[k] == x;
                        assert(s[k] == x);
                        assert(s[k].position <= s[s.len() - 1].position);
                    }
                }
            }
        }
    }
}

/// A bucket listing runs in ascending position and holds exactly the rows
/// it shows, each as often as the rows hold it.
pub proof fn lemma_listing_sorted_and_complete(ts: Seq<TaskModel>, b: Bucket, include_completed: bool)
    ensures
        sorted_by_position(bucket_listing(ts, b, include_completed)),
        bucket_listing(ts, b, include_completed).to_multiset() == ts.filter(
            |t: TaskModel| shown(t, b, include_completed),
        ).to_multiset(),
    decreases ts.len(),
{
    broadcast use vstd::seq_lib::group_to_multiset_ensures;

    reveal(Seq::filter);
    let p = |t: TaskModel| shown(t, b, include_completed);
    if ts.len() > 0 {
        lemma_listing_sorted_and_complete(ts.drop_last(), b, include_completed);
        let rest = bucket_listing(ts.drop_last(), b, include_completed);
        lemma_insert_by_position(rest, ts.last());
        assert(ts.filter(p) == if p(ts.last()) {
            ts.drop_last().filter(p).push(ts.last())
        } else {
            ts.drop_last().filter(p)
        });
    } else {
        assert(ts.filter(p) =~= Seq::<TaskModel>::empty());
    }
}


/// A task that `Board::create_task` adds gets a positive position above
/// every position its bucket held; the call succeeds only where the
/// bucket's largest position is below `i64::MAX`.
pub proof fn lemma_created_position_fresh(m: BoardModel, title: Seq<char>, b: Bucket, st: i64)
    requires
        max_position(m.tasks, b) < i64::MAX,
    ensures
        created(m, title, b, st).position >= 1,
        forall|k: int|
            0 <= k < m.tasks.len() && (#[trigger] m.tasks[k]).bucket == b ==> m.tasks[k].position
                < created(m, title, b, st).position,
{
    lemma_max_position_bounds(m.tasks, b);
}

/// Update times do not rise from one entry to the next.
pub open spec fn sorted_by_recency(s: Seq<TaskModel>) -> bool {
    forall|i: int, j: int|
        0 <= i < j < s.len() ==> (#[trigger] s[i]).updated_at >= (#[trigger] s[j]).updated_at
}

proof fn lemma_insert_by_recency(s: Seq<TaskModel>, t: TaskModel)
    ensures
        insert_by_recency(s, t).to_multiset() == s.to_multiset().insert(t),
        sorted_by_recency(s) ==> sorted_by_recency(insert_by_recency(s, t)),
    decreases s.len(),
{
    broadcast use vstd::seq_lib::group_to_multiset_ensures;

    if s.len() == 0 || s.last().updated_at >= t.updated_at {
        if sorted_by_recency(s) && s.len() > 0 {
            let u = s.push(t);
            assert forall|i: int, j: int| 0 <= i < j < u.len() implies (#[trigger] u[i]).updated_at
                >= (#[trigger] u[j]).updated_at by {
                if j == s.len() {
                    assert(s[i].updated_at >= s[s.len() - 1].updated_at || i == s.len() - 1);
                }
            }
        }
    } else {
        let d = s.drop_last();
        let l = s.last();
        lemma_insert_by_recency(d, t);
        let r = insert_by_recency(d, t);
        assert(d.push(l) =~= s);
        assert(s.to_multiset() =~= d.to_multiset().insert(l));
        assert(r.push(l).to_multiset() =~= r.to_multiset().insert(l));
        if sorted_by_recency(s) {
            assert(sorted_by_recency(d)) by {
                assert forall|i: int, j: int| 0 <= i < j < d.len() implies (#[trigger] d[i]).updated_at
                    >= (#[trigger] d[j]).updated_at by {
                    assert(d[i] == s[i] && d[j] == s[j]);
                }
            }
            let u = r.push(l);
            assert forall|i: int, j: int| 0 <= i < j < u.len() implies (#[trigger] u[i]).updated_at
                >= (#[trigger] u[j]).updated_at by {
                if j == r.len() {
                    let x = r[i];
                    assert(r.contains(x));
                    assert(r.to_multiset().count(x) > 0);
                    if x != t {
                        assert(d.to_multiset().count(x) > 0);
                        assert(d.contains(x));
                        let k = choose|k: int| 0 <= k < d.len() && d[k] == x;
                        assert(s[k] == x);
                        assert(s[k].updated_at >= s[s.len() - 1].updated_at);
                    }
                }
            }
        }
    }
}

/// The completed listing runs from the latest update to the earliest and
/// holds exactly the completed rows, each as often as the rows hold it.
pub proof fn lemma_completed_sorted_and_complete(ts: Seq<TaskModel>)
    ensures
        sorted_by_recency(completed_listing(ts)),
        completed_listing(ts).to_multiset() == ts.filter(|t: TaskModel| t.completed).to_multiset(),
    decreases ts.len(),
{
    broadcast use vstd::seq_lib::group_to_multiset_ensures;

    reveal(Seq::filter);
    let p = |t: TaskModel| t.completed;
    if ts.len() > 0 {
        lemma_completed_sorted_and_complete(ts.drop_last());
        let rest = completed_listing(ts.drop_last());
        lemma_insert_by_recency(rest, ts.last());
        assert(ts.filter(p) == if p(ts.last()) {
            ts.drop_last().filter(p).push(ts.last())
        } else {
            ts.drop_last().filter(p)
        });
    } else {
        assert(ts.filter(p) =~= Seq::<TaskModel>::empty());
    }
}

} // verus!
