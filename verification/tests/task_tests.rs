use oswald::Task;
use oswald::TaskStatus;

fn has_id(tasks: &Vec<&Task>, id: u32) -> bool {
    tasks.iter().any(|t| t.id == id)
}

#[test]
fn tasks_test_add_multiple_task() {
    let mut root = Task::default();
    let task_a = Box::new(Task::new_with_id(1));
    let task_b = Box::new(Task::new_with_id(2));

    root.add_subtask(task_a.clone());
    root.add_subtask(task_b.clone());

    let subtasks = root.get_subtasks();
    assert!(has_id(&subtasks, 1));
    assert!(has_id(&subtasks, 2));
}

#[test]
fn test_get_subtask_parent() {
    /*
     *           (t)
     *          /   \
     *       (sA)   (sB)
     *             /   \
     *           (sC) (sD)
     *                 |
     *                (sE)
     */
    let mut task = Task::default();
    // Level 1
    let subtask_a = Box::new(Task::new_with_id(1));
    let mut subtask_b = Box::new(Task::new_with_id(2));
    // Level 2
    let subtask_c = Box::new(Task::new_with_id(3));
    let mut subtask_d = Box::new(Task::new_with_id(4));
    // Level 3
    let subtask_e = Box::new(Task::new_with_id(5));

    subtask_d.add_subtask(subtask_e);

    subtask_b.add_subtask(subtask_d);
    subtask_b.add_subtask(subtask_c);

    task.add_subtask(subtask_b);
    task.add_subtask(subtask_a);

    assert_eq!(task.get_subtask_parent(3).expect("Expected Task with id = 2").id, 2);
    assert_eq!(task.get_subtask_parent(4).expect("Expected Task with id = 2").id, 2);
    assert_eq!(task.get_subtask_parent(5).expect("Expected Task with id = 4").id, 4);
    assert_eq!(task.get_subtask_parent(6), None);
}

#[test]
fn test_delete_subtask_by_id() {
    let mut task = Task::default();
    // Level 1
    let subtask_a = Box::new(Task::new_with_id(1));
    let mut subtask_b = Box::new(Task::new_with_id(2));
    // Level 2
    let subtask_c = Box::new(Task::new_with_id(3));
    let mut subtask_d = Box::new(Task::new_with_id(4));
    // Level 3
    let subtask_e = Box::new(Task::new_with_id(5));

    subtask_d.add_subtask(subtask_e);

    subtask_b.add_subtask(subtask_d);
    subtask_b.add_subtask(subtask_c);

    task.add_subtask(subtask_b);
    task.add_subtask(subtask_a);

    task.delete_subtask(1);
    task.delete_subtask(4);

    let all = task.get_all_subtasks();
    let mut itr = all.into_iter();
    assert_eq!(itr.next().expect("Expected Task with id = 3").id, 3);
    assert_eq!(itr.next().expect("Expected Task with id = 2").id, 2);
    assert_eq!(itr.next(), None);
}

#[test]
fn tasks_test_distance_to_max_task_overflow() {
    let mut task = Task::default();
    task.importance = i64::MAX;
    task.urgency = i64::MAX;
    // (2^63 - 1)^2, twice, exactly: no saturation, no overflow.
    assert_eq!(task.get_distance(), 170141183460469231694793815568465002498i128);
}

#[test]
fn tasks_test_distance_to_max_task() {
    let mut task = Task::default();
    task.importance = 4;
    task.urgency = 3;

    assert_eq!(task.get_distance(), 25);
}

#[test]
fn tasks_test_multiple_sorted_importance_urgency() {
    let mut root = Task::default();
    let mut task_a = Box::new(Task::new_with_id(1));
    task_a.importance = 4;
    task_a.urgency = 1;
    let mut task_b = Box::new(Task::new_with_id(2));
    task_b.importance = 3;
    task_b.urgency = 2;
    let mut task_c = Box::new(Task::new_with_id(3));
    task_c.importance = 2;
    task_c.urgency = 3;
    let mut task_d = Box::new(Task::new_with_id(4));
    task_d.importance = 1;
    task_d.urgency = 4;

    root.add_subtask(task_a);
    root.add_subtask(task_b);
    root.add_subtask(task_c);
    root.add_subtask(task_d);

    let subtasks = root.get_subtasks();
    let mut task_itr = subtasks.into_iter();
    assert_eq!(task_itr.next().expect("Expected Task A").id, 1);
    assert_eq!(task_itr.next().expect("Expected Task D").id, 4);
    assert_eq!(task_itr.next().expect("Expected Task B").id, 2);
    assert_eq!(task_itr.next().expect("Expected Task C").id, 3);
    assert_eq!(None, task_itr.next());
}

#[test]
fn test_negative_component_arrange_sort() {
    let mut root = Task::default();

    let mut subtask_a = Box::new(Task::new_with_id(1));
    subtask_a.importance = -4;
    subtask_a.urgency = -4;

    let mut subtask_b = Box::new(Task::new_with_id(2));
    subtask_b.importance = 2;
    subtask_b.urgency = 2;

    root.add_subtask(subtask_a);
    root.add_subtask(subtask_b);

    let subtasks = root.get_subtasks();
    let mut task_itr = subtasks.into_iter();
    assert_eq!(task_itr.next().expect("Expected Task B").id, 2);
    assert_eq!(task_itr.next().expect("Expected Task A").id, 1);
    assert_eq!(task_itr.next(), None);
}

#[test]
fn tasks_test_same_importance_different_complexity_sort() {
    let mut root = Task::default();
    let mut task_b = Box::new(Task::new_with_id(2));
    let subtask_a = Box::new(Task::new_with_id(4));
    let subtask_b = Box::new(Task::new_with_id(5));
    let task_a = Box::new(Task::new_with_id(1));
    let task_c = Box::new(Task::new_with_id(3));

    task_b.add_subtask(subtask_a);
    task_b.add_subtask(subtask_b);

    root.add_subtask(task_a);
    root.add_subtask(task_b);
    root.add_subtask(task_c);

    let subtasks = root.get_subtasks();
    let mut task_itr = subtasks.into_iter();
    assert_eq!(task_itr.next().expect("Expected Task A").id, 1);
    assert_eq!(task_itr.next().expect("Expected Task C").id, 3);
    assert_eq!(task_itr.next().expect("Expected Task B").id, 2);
    assert_eq!(task_itr.next(), None);
}

#[test]
fn tasks_test_different_status_sort() {
    let mut root = Task::default();
    let task_a = Box::new(Task::new_with_id(4));
    let mut task_b = Box::new(Task::new_with_id(3));
    task_b.status = TaskStatus::Done;
    let mut task_c = Box::new(Task::new_with_id(2));
    task_c.status = TaskStatus::Blocked;
    let mut task_d = Box::new(Task::new_with_id(1));
    task_d.status = TaskStatus::Archived;

    root.add_subtask(task_a);
    root.add_subtask(task_b);
    root.add_subtask(task_c);
    root.add_subtask(task_d);

    let subtasks = root.get_subtasks();
    let mut itr = subtasks.into_iter();
    assert_eq!(itr.next().expect("Expected Task A (Open)").id, 4);
    assert_eq!(itr.next().expect("Expected Task C (Blocked)").id, 2);
    assert_eq!(itr.next().expect("Expected Task D (Archived)").id, 1);
    assert_eq!(itr.next().expect("Expected Task B (Done)").id, 3);
    assert_eq!(None, itr.next(), "Expected None");
}

#[test]
fn test_reinsert_into_correct_position_after_update() {
    let mut root = Task::default();
    let task_a = Box::new(Task::default());
    let task_b = Box::new(Task::new_with_id(1));
    let task_c = Box::new(Task::new_with_id(2));

    let mut updated_task_b = Box::new(Task::new_with_id(1));
    updated_task_b.importance = 10;
    updated_task_b.urgency = 10;

    root.add_subtask(task_a);
    root.add_subtask(task_b);
    root.add_subtask(task_c);
    root.add_subtask(updated_task_b);

    let subtasks = root.get_subtasks();
    let mut itr = subtasks.into_iter();
    assert_eq!(itr.next().expect("Expected Task B").id, 1);
    assert_eq!(itr.next().expect("Expected Task A").id, 0);
    assert_eq!(itr.next().expect("Expected Task C").id, 2);
    assert_eq!(None, itr.next(), "Expected None");
}

#[test]
fn tasks_test_add_same_id_subtask_updates_it() {
    let mut task = Task::default();
    let subtask = Box::new(Task::default());
    let mut other_subtask = Box::new(Task::default());
    other_subtask.importance = 42;

    task.add_subtask(subtask);
    task.add_subtask(other_subtask.clone());

    let subtasks = task.get_subtasks();
    let mut itr = subtasks.into_iter();
    let retrieved_subtask = itr.next();
    assert_eq!(retrieved_subtask.expect("expected task with id = 0").importance, 42);
}

#[test]
fn test_add_same_id_microtask_updates_it() {
    let mut root = Task::default();
    let mut subtask = Box::new(Task::new_with_id(1));
    let microtask_a = Box::new(Task::new_with_id(2));
    let microtask_b = Box::new(Task::new_with_id(3));

    subtask.add_subtask(microtask_a);
    subtask.add_subtask(microtask_b);
    root.add_subtask(subtask);

    let mut new_microtask_a = Box::new(Task::new_with_id(2));
    new_microtask_a.importance = 10;
    root.add_subtask(new_microtask_a);

    assert_eq!(root.get_subtasks().len(), 1);

    let subtasks = root.get_subtasks();
    let mut itr = subtasks.into_iter();
    let retrieved_subtask = itr.next().expect("expected task with id = 1");

    assert_eq!(retrieved_subtask.id, 1);
    assert_eq!(itr.next(), None);

    let microtasks = retrieved_subtask.get_subtasks();
    let mut sub_itr = microtasks.into_iter();
    let retrieved_microtask = sub_itr.next().expect("expected task with id = 2");
    assert_eq!(retrieved_microtask.id, 2);
    assert_eq!(retrieved_microtask.importance, 10);
}

#[test]
fn tasks_test_get_task_complexity_single_level() {
    /*
     *           (t)
     *          / | \
     *      (sA)(sB)(sC)
     */
    let mut task = Task::default();
    let subtask_a = Box::new(Task::new_with_id(1));
    let subtask_b = Box::new(Task::new_with_id(2));
    let subtask_c = Box::new(Task::new_with_id(3));

    task.add_subtask(subtask_a);
    task.add_subtask(subtask_b);
    task.add_subtask(subtask_c);

    assert_eq!(task.get_complexity(), 4);
}

#[test]
fn tasks_test_get_task_complexity_multilevel() {
    let mut task = Task::default();
    // Level 1
    let subtask_a = Box::new(Task::new_with_id(1));
    let mut subtask_b = Box::new(Task::new_with_id(2));
    // Level 2
    let subtask_c = Box::new(Task::new_with_id(3));
    let mut subtask_d = Box::new(Task::new_with_id(4));
    // Level 3
    let subtask_e = Box::new(Task::new_with_id(5));

    subtask_d.add_subtask(subtask_e);

    subtask_b.add_subtask(subtask_d);
    subtask_b.add_subtask(subtask_c);

    task.add_subtask(subtask_b);
    task.add_subtask(subtask_a);

    assert_eq!(task.get_complexity(), 6);
}

#[test]
fn tasks_test_get_task_complexity_multilevel_single_leaf() {
    /*
     * (t) - (sA) - (sB) - (sC) - (sD) - (sE)
     */
    let mut task = Task::default();
    let mut subtask_a = Box::new(Task::new_with_id(1));
    let mut subtask_b = Box::new(Task::new_with_id(2));
    let mut subtask_c = Box::new(Task::new_with_id(3));
    let mut subtask_d = Box::new(Task::new_with_id(4));
    let subtask_e = Box::new(Task::new_with_id(3));

    subtask_d.add_subtask(subtask_e);
    subtask_c.add_subtask(subtask_d);
    subtask_b.add_subtask(subtask_c);
    subtask_a.add_subtask(subtask_b);
    task.add_subtask(subtask_a);

    assert_eq!(task.get_complexity(), 6);
}

#[test]
fn test_get_task_complexity_multilevel_sort() {
    let mut task = Task::default();
    // Level 1
    let mut subtask_a = Box::new(Task::new_with_id(1));
    subtask_a.importance = 10;
    subtask_a.urgency = 10;

    let mut subtask_b = Box::new(Task::new_with_id(2));
    subtask_b.importance = 10;
    subtask_b.urgency = 10;

    // Level 2
    let subtask_c = Box::new(Task::new_with_id(3));
    let mut subtask_d = Box::new(Task::new_with_id(4));

    // Level 3
    let mut subtask_e = Box::new(Task::new_with_id(5));
    subtask_e.importance = 8;
    subtask_e.urgency = 8;

    subtask_d.add_subtask(subtask_e);

    subtask_b.add_subtask(subtask_d);
    subtask_b.add_subtask(subtask_c);

    task.add_subtask(subtask_b);
    task.add_subtask(subtask_a);

    let all = task.get_all_subtasks();
    let mut itr = all.into_iter();
    assert_eq!(itr.next().expect("Expected Task A").id, 1);
    assert_eq!(itr.next().expect("Expected Task E").id, 5);
    assert_eq!(itr.next().expect("Expected Task C").id, 3);
    assert_eq!(itr.next().expect("Expected Task D").id, 4);
    assert_eq!(itr.next().expect("Expected Task B").id, 2);
    assert_eq!(itr.next(), None);
}

#[test]
fn test_collect_all_tasks() {
    /*
     *            (r)
     *           /   \
     *       (tA)    (tB)
     *        |      /  \
     *      (sB)   (sA)(sC)
     *      /  \
     *    (mA)(mB)
     */
    let mut root = Box::new(Task::default());

    let mut task_a = Box::new(Task::new_with_id(1));
    let mut task_b = Box::new(Task::new_with_id(2));

    let subtasks_a = Box::new(Task::new_with_id(3));
    let mut subtasks_b = Box::new(Task::new_with_id(4));
    let subtasks_c = Box::new(Task::new_with_id(5));

    let microtask_a = Box::new(Task::new_with_id(6));
    let microtask_b = Box::new(Task::new_with_id(7));

    subtasks_b.add_subtask(microtask_a);
    subtasks_b.add_subtask(microtask_b);

    task_a.add_subtask(subtasks_b);

    task_b.add_subtask(subtasks_a);
    task_b.add_subtask(subtasks_c);

    root.add_subtask(task_a);
    root.add_subtask(task_b);

    let all = root.get_all_subtasks();
    let mut itr = all.into_iter();
    assert_eq!(itr.next().expect("Expected Task #3").id, 3);
    assert_eq!(itr.next().expect("Expected Task #5").id, 5);
    assert_eq!(itr.next().expect("Expected Task #6").id, 6);
    assert_eq!(itr.next().expect("Expected Task #7").id, 7);
    assert_eq!(itr.next().expect("Expected Task #2").id, 2);
    assert_eq!(itr.next().expect("Expected Task #4").id, 4);
    assert_eq!(itr.next().expect("Expected Task #1").id, 1);
    assert_eq!(itr.next(), None);
}

#[test]
fn test_add_multiple_subtasks() {
    let mut root = Box::new(Task::default());

    let tasks = vec![
        Box::new(Task::new_with_id(1)),
        Box::new(Task::new_with_id(2)),
        Box::new(Task::new_with_id(3)),
    ];

    root.add_subtasks_vec(tasks);

    let subtasks = root.get_subtasks();
    assert!(has_id(&subtasks, 1));
    assert!(has_id(&subtasks, 2));
    assert!(has_id(&subtasks, 3));
}

#[test]
fn test_add_subtask_to_task() {
    let mut task = Task::default();
    let subtask = Box::new(Task::new_with_id(1));

    task.add_subtask(subtask);

    assert!(has_id(&task.get_subtasks(), 1));
}
