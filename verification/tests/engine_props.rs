use std::cmp::Ordering;
use oswald::DummyStore;
use oswald::MockDataStore;
use oswald::Oswald;
use oswald::SQLiteStore;
use oswald::Task;
use oswald::TaskStatus;

fn leaf(id: u32, importance: i64, urgency: i64, status: TaskStatus) -> Task {
    let mut t = Task::new_with_id(id);
    t.importance = importance;
    t.urgency = urgency;
    t.status = status;
    t
}

#[test]
fn test_top_level_scenario() {
    // insert id=1 (Open, 0, 0), then id=2 (Open, 0, 0) with one child id=3:
    // id=1 has complexity 1 < id=2's complexity 2, so it sorts first despite
    // identical status and distance.
    let mut oswald = Oswald::new();
    oswald.add_task(Box::new(Task::new_with_id(1)));
    let mut two = Box::new(Task::new_with_id(2));
    two.add_subtask(Box::new(Task::new_with_id(3)));
    oswald.add_task(two);

    let top: Vec<u32> = oswald.get_tasks().iter().map(|t| t.id).collect();
    assert_eq!(top, vec![1, 2]);
}

#[test]
fn test_upsert_idempotent_observable() {
    let build = |times: u32| -> Task {
        let mut root = Task::default();
        let mut parent = Box::new(Task::new_with_id(1));
        parent.add_subtask(Box::new(Task::new_with_id(2)));
        root.add_subtask(parent);
        for _ in 0..times {
            root.add_subtask(Box::new(leaf(2, 5, -3, TaskStatus::Blocked)));
        }
        root
    };
    let once = build(1);
    let twice = build(2);
    assert_eq!(format!("{:?}", once), format!("{:?}", twice));
}

#[test]
fn test_reinsert_keeps_depth() {
    // id 4 lives three levels deep; re-inserting through the root must not
    // promote it to a new top-level child.
    let mut root = Task::default();
    let mut level1 = Box::new(Task::new_with_id(1));
    let mut level2 = Box::new(Task::new_with_id(2));
    let level3 = Box::new(Task::new_with_id(4));
    level2.add_subtask(level3);
    level1.add_subtask(level2);
    root.add_subtask(level1);

    root.add_subtask(Box::new(leaf(4, 9, 9, TaskStatus::Blocked)));

    assert_eq!(root.get_subtasks().len(), 1);
    let holder = root.get_subtask_parent(4).expect("expected holder of 4");
    assert_eq!(holder.id, 2);
    let stored = holder.get_subtasks();
    assert_eq!(stored[0].id, 4);
    assert_eq!(stored[0].importance, 9);
    assert_eq!(stored[0].status, TaskStatus::Blocked);
}

#[test]
fn test_comparator_trichotomy_and_transitivity() {
    let a = leaf(1, 0, 0, TaskStatus::Open);
    let b = leaf(2, 7, 7, TaskStatus::Blocked);
    let c = leaf(3, -1, -1, TaskStatus::Done);

    // exactly one strict order per pair of distinct ids
    assert_eq!(a.cmp(&b), Ordering::Less);
    assert_eq!(b.cmp(&a), Ordering::Greater);
    assert_eq!(b.cmp(&c), Ordering::Less);
    assert_eq!(c.cmp(&b), Ordering::Greater);
    // and the order carries across
    assert_eq!(a.cmp(&c), Ordering::Less);
    // equal ids compare equal whatever the fields say
    let a_done = leaf(1, 99, 99, TaskStatus::Done);
    assert_eq!(a.cmp(&a_done), Ordering::Equal);
}

#[test]
fn test_status_dominates_sort() {
    let open_heavy = {
        let mut t = leaf(8, -50, -50, TaskStatus::Open);
        t.add_subtask(Box::new(Task::new_with_id(9)));
        t.add_subtask(Box::new(Task::new_with_id(10)));
        t
    };
    let done_light = leaf(3, 100, 100, TaskStatus::Done);
    assert_eq!(open_heavy.cmp(&done_light), Ordering::Less);
}

#[test]
fn test_complexity_tie_break_sort() {
    // equal status: a leaf (1 node) sorts before a parent of two (3 nodes),
    // whatever the distances say
    let light = leaf(5, -100, -100, TaskStatus::Open);
    let mut heavy = leaf(6, 100, 100, TaskStatus::Open);
    heavy.add_subtask(Box::new(Task::new_with_id(7)));
    heavy.add_subtask(Box::new(Task::new_with_id(8)));
    assert_eq!(light.get_complexity(), 1);
    assert_eq!(heavy.get_complexity(), 3);
    assert_eq!(light.cmp(&heavy), Ordering::Less);
}

#[test]
fn test_distance_tie_break_values() {
    // importance=4, urgency=3 gives 25; importance=-4, urgency=-4 gives -32,
    // so the first sorts ahead of the second
    let first = leaf(1, 4, 3, TaskStatus::Open);
    let second = leaf(2, -4, -4, TaskStatus::Open);
    assert_eq!(first.get_distance(), 25);
    assert_eq!(second.get_distance(), -32);
    assert_eq!(first.cmp(&second), Ordering::Less);
}

#[test]
fn test_delete_missing_id_is_noop() {
    let mut root = Task::default();
    let mut parent = Box::new(leaf(1, 3, -2, TaskStatus::Blocked));
    parent.add_subtask(Box::new(leaf(2, 1, 1, TaskStatus::Done)));
    root.add_subtask(parent);

    let before = format!("{:?}", root);
    root.delete_subtask(42);
    let after = format!("{:?}", root);
    assert_eq!(before, after);
}

#[test]
fn test_all_returns_every_node_once() {
    let mut root = Task::default();
    let mut a = Box::new(Task::new_with_id(1));
    let mut b = Box::new(Task::new_with_id(2));
    b.add_subtask(Box::new(Task::new_with_id(3)));
    a.add_subtask(b);
    root.add_subtask(a);
    root.add_subtask(Box::new(Task::new_with_id(4)));

    assert_eq!(root.get_complexity(), 5);
    let all = root.get_all_subtasks();
    assert_eq!(all.len(), 4);
    let mut ids: Vec<u32> = all.iter().map(|t| t.id).collect();
    ids.sort();
    assert_eq!(ids, vec![1, 2, 3, 4]);
}

#[test]
fn test_status_codes_round_trip() {
    assert_eq!(TaskStatus::Open.to_code(), 1);
    assert_eq!(TaskStatus::Blocked.to_code(), 253);
    assert_eq!(TaskStatus::Archived.to_code(), 254);
    assert_eq!(TaskStatus::Done.to_code(), 255);

    for status in [TaskStatus::Open, TaskStatus::Blocked, TaskStatus::Archived, TaskStatus::Done] {
        assert_eq!(TaskStatus::from_code(status.to_code() as i32), status);
    }
}

#[test]
fn test_status_decode_is_lenient() {
    // any unrecognized code decodes to Open, never an error
    assert_eq!(TaskStatus::from_code(0), TaskStatus::Open);
    assert_eq!(TaskStatus::from_code(1), TaskStatus::Open);
    assert_eq!(TaskStatus::from_code(2), TaskStatus::Open);
    assert_eq!(TaskStatus::from_code(-7), TaskStatus::Open);
    assert_eq!(TaskStatus::from_code(252), TaskStatus::Open);
    assert_eq!(TaskStatus::from_code(1000), TaskStatus::Open);
    assert_eq!(TaskStatus::from_code(253), TaskStatus::Blocked);
    assert_eq!(TaskStatus::from_code(254), TaskStatus::Archived);
    assert_eq!(TaskStatus::from_code(255), TaskStatus::Done);
}

#[test]
fn test_store_handles() {
    let store = SQLiteStore::new(String::from("sqlite::memory:"));
    assert_eq!(store.conn(), "sqlite::memory:");
    let _mock = MockDataStore::new();
    let _dummy = DummyStore::new();
}

#[test]
fn test_task_new_carries_fields() {
    let t = Task::new(11, String::from("write it down"), -3, 8, TaskStatus::Archived);
    assert_eq!(t.id, 11);
    assert_eq!(t.desc, "write it down");
    assert_eq!(t.importance, -3);
    assert_eq!(t.urgency, 8);
    assert_eq!(t.status, TaskStatus::Archived);
    assert_eq!(t.get_complexity(), 1);
    assert_eq!(t.get_distance(), -9 + 64);
}
