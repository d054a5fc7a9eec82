use eisenhower::board::{Board, Task, TaskError};
use eisenhower::taxonomy::{Bucket, TaskType};

fn titles(ts: &[Task]) -> Vec<String> {
    ts.iter().map(|t| t.title.clone()).collect()
}

#[test]
fn create_then_list_round_trip() {
    let mut b = Board::new();
    let t = b.create_task("Buy milk", "UrgentImportant", 10).unwrap();
    assert_eq!(t.position, 1);
    let board = b.list_board(true);
    assert_eq!(board.len(), 5);
    let mut found = Vec::new();
    for (bucket, ts) in &board {
        for t in ts {
            if t.title == "Buy milk" {
                found.push((*bucket, t.bucket, t.task_type, t.completed, t.position));
            }
        }
    }
    assert_eq!(
        found,
        vec![(Bucket::UrgentImportant, Bucket::UrgentImportant, TaskType::UrgentImportant, false, 1)]
    );
}

#[test]
fn appends_get_rising_positions() {
    let mut b = Board::new();
    let mut last = 0;
    for k in 0..6 {
        let bucket = if k % 2 == 0 { "Today" } else { "NotUrgentImportant" };
        let t = b.create_task("task", bucket, 1).unwrap();
        if bucket == "Today" {
            assert!(t.position > last);
            last = t.position;
        }
    }
    let today = b.list_bucket(Bucket::Today, true);
    let positions: Vec<i64> = today.iter().map(|t| t.position).collect();
    assert_eq!(positions, vec![1, 2, 3]);
}

#[test]
fn append_after_gap_uses_max_plus_one() {
    let mut b = Board::new();
    let a = b.create_task("a", "Today", 1).unwrap();
    let c = b.create_task("c", "Today", 1).unwrap();
    b.move_task(c.id, "Today", Some(6), 2).unwrap();
    b.delete_task(a.id);
    let d = b.create_task("d", "Today", 3).unwrap();
    assert_eq!(d.position, 8);
}

#[test]
fn today_creation_defaults_category() {
    let mut b = Board::new();
    let t = b.create_task("x", "Today", 1).unwrap();
    assert_eq!(t.bucket, Bucket::Today);
    assert_eq!(t.task_type, TaskType::UrgentImportant);
    let t = b.create_task("y", "NotUrgentNotImportant", 1).unwrap();
    assert_eq!(t.task_type, TaskType::NotUrgentNotImportant);
}

#[test]
fn create_trims_title() {
    let mut b = Board::new();
    let t = b.create_task("  hello world \t\n", "UrgentNotImportant", 1).unwrap();
    assert_eq!(t.title, "hello world");
    assert_eq!(b.get(t.id).unwrap().title, "hello world");
}

#[test]
fn blank_title_is_rejected_without_change() {
    let mut b = Board::new();
    assert_eq!(b.create_task("   ", "Today", 1).err(), Some(TaskError::ValidationError));
    assert_eq!(b.len(), 0);
    let t = b.create_task("ok", "Today", 1).unwrap();
    assert_eq!(t.id, 1);
}

#[test]
fn unknown_bucket_is_rejected() {
    let mut b = Board::new();
    assert_eq!(b.create_task("x", "Inbox", 1).err(), Some(TaskError::InvalidBucket));
    assert_eq!(b.len(), 0);
    let t = b.create_task("x", "Today", 1).unwrap();
    assert_eq!(b.move_task(t.id, "today", None, 2).err(), Some(TaskError::InvalidBucket));
    assert_eq!(b.reorder_bucket("Someday", &vec![t.id], 2), Err(TaskError::InvalidBucket));
    assert_eq!(b.get(t.id).unwrap().position, 1);
}

#[test]
fn ids_run_out_with_storage_error() {
    let mut b = Board::new();
    let row = Task {
        id: i64::MAX - 1,
        title: "old".to_string(),
        task_type: TaskType::UrgentImportant,
        bucket: Bucket::UrgentImportant,
        completed: false,
        position: 1,
        created_at: 0,
        updated_at: 0,
    };
    b.restore_task(row).unwrap();
    assert_eq!(b.create_task("new", "Today", 1).err(), Some(TaskError::StorageError));
    assert_eq!(b.len(), 1);
}

#[test]
fn toggle_twice_restores_completion() {
    let mut b = Board::new();
    let t = b.create_task("t", "UrgentImportant", 100).unwrap();
    let once = b.toggle_task(t.id, 100).unwrap();
    assert!(once.completed);
    assert!(once.updated_at > t.updated_at);
    let twice = b.toggle_task(t.id, 50).unwrap();
    assert!(!twice.completed);
    assert!(twice.updated_at > once.updated_at);
    assert_eq!(twice.position, t.position);
    assert_eq!(twice.bucket, t.bucket);
    assert_eq!(twice.created_at, t.created_at);
}

#[test]
fn toggle_uses_later_clock_reading() {
    let mut b = Board::new();
    let t = b.create_task("t", "Today", 100).unwrap();
    assert_eq!(t.updated_at, 100);
    let u = b.toggle_task(t.id, 500).unwrap();
    assert_eq!(u.updated_at, 500);
    let v = b.toggle_task(t.id, 200).unwrap();
    assert_eq!(v.updated_at, 501);
}

#[test]
fn delete_missing_then_toggle_not_found() {
    let mut b = Board::new();
    let t = b.create_task("t", "Today", 1).unwrap();
    b.delete_task(999);
    assert_eq!(b.len(), 1);
    b.delete_task(t.id);
    assert_eq!(b.len(), 0);
    b.delete_task(t.id);
    assert_eq!(b.toggle_task(t.id, 2).err(), Some(TaskError::NotFound));
    assert!(b.get(t.id).is_none());
}

#[test]
fn delete_leaves_gaps() {
    let mut b = Board::new();
    let a = b.create_task("a", "Today", 1).unwrap();
    let m = b.create_task("m", "Today", 1).unwrap();
    let c = b.create_task("c", "Today", 1).unwrap();
    b.delete_task(m.id);
    let ps: Vec<(i64, i64)> = b.list_bucket(Bucket::Today, true).iter().map(|t| (t.id, t.position)).collect();
    assert_eq!(ps, vec![(a.id, 1), (c.id, 3)]);
}

#[test]
fn reorder_scenario() {
    let mut b = Board::new();
    let a = b.create_task("A", "UrgentImportant", 1).unwrap();
    let bb = b.create_task("B", "UrgentImportant", 1).unwrap();
    let c = b.create_task("C", "UrgentImportant", 1).unwrap();
    assert_eq!((a.position, bb.position, c.position), (1, 2, 3));
    b.reorder_bucket("UrgentImportant", &vec![c.id, a.id, bb.id], 5).unwrap();
    assert_eq!(b.get(c.id).unwrap().position, 1);
    assert_eq!(b.get(a.id).unwrap().position, 2);
    assert_eq!(b.get(bb.id).unwrap().position, 3);
    assert_eq!(titles(&b.list_bucket(Bucket::UrgentImportant, true)), vec!["C", "A", "B"]);
}

#[test]
fn reorder_twice_is_idempotent() {
    let mut b = Board::new();
    let mut ids = Vec::new();
    for _ in 0..4 {
        ids.push(b.create_task("x", "NotUrgentImportant", 1).unwrap().id);
    }
    let order = vec![ids[2], 77, ids[0], ids[3]];
    b.reorder_bucket("NotUrgentImportant", &order, 2).unwrap();
    let first: Vec<(i64, i64)> = ids.iter().map(|i| (*i, b.get(*i).unwrap().position)).collect();
    b.reorder_bucket("NotUrgentImportant", &order, 3).unwrap();
    let second: Vec<(i64, i64)> = ids.iter().map(|i| (*i, b.get(*i).unwrap().position)).collect();
    assert_eq!(first, second);
    assert_eq!(first, vec![(ids[0], 3), (ids[1], 2), (ids[2], 1), (ids[3], 4)]);
}

#[test]
fn reorder_partial_list_renumbers_subset() {
    let mut b = Board::new();
    let a = b.create_task("a", "Today", 1).unwrap();
    let c = b.create_task("c", "Today", 1).unwrap();
    b.reorder_bucket("Today", &vec![c.id], 2).unwrap();
    assert_eq!(b.get(c.id).unwrap().position, 1);
    assert_eq!(b.get(a.id).unwrap().position, 1);
    let u = b.get(c.id).unwrap();
    assert!(u.updated_at > c.updated_at);
    assert_eq!(b.get(a.id).unwrap().updated_at, a.updated_at);
}

#[test]
fn reorder_duplicate_id_takes_last_index() {
    let mut b = Board::new();
    let a = b.create_task("a", "Today", 1).unwrap();
    b.reorder_bucket("Today", &vec![a.id, 9, a.id], 2).unwrap();
    assert_eq!(b.get(a.id).unwrap().position, 3);
}

#[test]
fn move_into_today_keeps_category() {
    let mut b = Board::new();
    let t = b.create_task("t", "NotUrgentImportant", 1).unwrap();
    let m = b.move_task(t.id, "Today", Some(2), 2).unwrap();
    assert_eq!(m.bucket, Bucket::Today);
    assert_eq!(m.task_type, TaskType::NotUrgentImportant);
    assert_eq!(m.position, 3);
}

#[test]
fn move_into_quadrant_sets_category() {
    let mut b = Board::new();
    let t = b.create_task("t", "Today", 1).unwrap();
    assert_eq!(t.task_type, TaskType::UrgentImportant);
    let m = b.move_task(t.id, "NotUrgentNotImportant", None, 2).unwrap();
    assert_eq!(m.bucket, Bucket::NotUrgentNotImportant);
    assert_eq!(m.task_type, TaskType::NotUrgentNotImportant);
    assert_eq!(m.position, 1);
    assert_eq!(b.get(t.id).unwrap().task_type, TaskType::NotUrgentNotImportant);
}

#[test]
fn move_missing_task_is_not_found() {
    let mut b = Board::new();
    assert_eq!(b.move_task(4, "Today", None, 1).err(), Some(TaskError::NotFound));
}

#[test]
fn edit_title_rules() {
    let mut b = Board::new();
    let t = b.create_task("old", "Today", 1).unwrap();
    assert_eq!(b.edit_task_title(t.id, "  ", 2), Err(TaskError::ValidationError));
    assert_eq!(b.edit_task_title(42, "new", 2), Err(TaskError::NotFound));
    assert_eq!(b.edit_task_title(t.id, " new title ", 3), Ok(()));
    let u = b.get(t.id).unwrap();
    assert_eq!(u.title, "new title");
    assert_eq!(u.updated_at, 3);
}

#[test]
fn listing_hides_completed_unless_asked() {
    let mut b = Board::new();
    let a = b.create_task("a", "Today", 1).unwrap();
    b.create_task("b", "Today", 1).unwrap();
    b.toggle_task(a.id, 2).unwrap();
    assert_eq!(titles(&b.list_bucket(Bucket::Today, false)), vec!["b"]);
    assert_eq!(titles(&b.list_bucket(Bucket::Today, true)), vec!["a", "b"]);
}

#[test]
fn listing_sorts_by_position_keeping_row_order_on_ties() {
    let mut b = Board::new();
    let a = b.create_task("a", "Today", 1).unwrap();
    let c = b.create_task("c", "Today", 1).unwrap();
    let d = b.create_task("d", "UrgentImportant", 1).unwrap();
    b.move_task(d.id, "Today", Some(0), 2).unwrap();
    b.move_task(a.id, "Today", Some(4), 2).unwrap();
    let _ = c;
    assert_eq!(titles(&b.list_bucket(Bucket::Today, true)), vec!["d", "c", "a"]);
    let board = b.list_board(true);
    assert_eq!(board[0].0, Bucket::UrgentImportant);
    assert!(board[0].1.is_empty());
    assert_eq!(board[4].0, Bucket::Today);
    assert_eq!(board[4].1.len(), 3);
}

#[test]
fn restore_checks_rows() {
    let mut b = Board::new();
    let row = |id: i64, title: &str, tt: TaskType, bucket: Bucket, pos: i64| Task {
        id,
        title: title.to_string(),
        task_type: tt,
        bucket,
        completed: false,
        position: pos,
        created_at: 5,
        updated_at: 9,
    };
    assert_eq!(b.restore_task(row(3, " ", TaskType::UrgentImportant, Bucket::Today, 1)), Err(TaskError::ValidationError));
    assert_eq!(
        b.restore_task(row(3, "x", TaskType::UrgentImportant, Bucket::NotUrgentImportant, 1)),
        Err(TaskError::StorageError)
    );
    assert_eq!(b.restore_task(row(3, "x", TaskType::UrgentImportant, Bucket::Today, 0)), Err(TaskError::StorageError));
    assert_eq!(b.restore_task(row(0, "x", TaskType::UrgentImportant, Bucket::Today, 1)), Err(TaskError::StorageError));
    assert_eq!(b.restore_task(row(3, "x", TaskType::NotUrgentImportant, Bucket::Today, 1)), Ok(()));
    assert_eq!(b.restore_task(row(3, "y", TaskType::UrgentImportant, Bucket::Today, 2)), Err(TaskError::StorageError));
    let t = b.create_task("new", "Today", 1).unwrap();
    assert_eq!(t.id, 4);
    assert_eq!(t.position, 2);
    assert_eq!(t.updated_at, 10);
}

#[test]
fn next_stamp_is_ahead_of_clock() {
    let mut b = Board::new();
    let t = b.create_task("x", "Today", 1).unwrap();
    let s = b.next_stamp();
    assert!(s > t.updated_at);
    let u = b.toggle_task(t.id, s).unwrap();
    assert_eq!(u.updated_at, s);
}

#[test]
fn completed_tasks_latest_first_and_limited() {
    let mut b = Board::new();
    let a = b.create_task("a", "Today", 1).unwrap();
    let c = b.create_task("c", "UrgentImportant", 1).unwrap();
    let d = b.create_task("d", "NotUrgentImportant", 1).unwrap();
    b.toggle_task(c.id, 10).unwrap();
    b.toggle_task(a.id, 20).unwrap();
    b.toggle_task(d.id, 30).unwrap();
    b.toggle_task(d.id, 40).unwrap();
    assert_eq!(titles(&b.completed_tasks(100)), vec!["a", "c"]);
    assert_eq!(titles(&b.completed_tasks(1)), vec!["a"]);
    assert!(b.completed_tasks(0).is_empty());
}
