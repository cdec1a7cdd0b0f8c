use oswald::MockDataStore;
use oswald::Oswald;
use oswald::Task;

/// The small fixed tree that the mock storage collaborator serves: three
/// top-level tasks, the first and third carrying subtasks.
fn mock_store_tasks() -> Vec<Box<Task>> {
    MockDataStore::sample_tasks()
}

fn top_ids(oswald: &Oswald) -> Vec<u32> {
    oswald.get_tasks().iter().map(|t| t.id).collect()
}

#[test]
fn test_add_task() {
    let mut oswald = Oswald::new();
    let task = Box::new(Task::new_with_id(1));

    oswald.add_task(task);

    assert!(top_ids(&oswald).contains(&1));
}

#[test]
fn test_clear() {
    let mut oswald = Oswald::new();
    let task = Box::new(Task::new_with_id(1));

    oswald.add_task(task);

    assert!(top_ids(&oswald).contains(&1));

    oswald.clear();
    assert!(oswald.get_tasks().is_empty());
}

#[test]
fn tasks_test_load_all_tasks_from_data_store() {
    let mut oswald = Oswald::new();

    oswald.load(mock_store_tasks());

    let ids = top_ids(&oswald);
    assert!(ids.contains(&0));
    assert!(ids.contains(&1));
    assert!(ids.contains(&2));

    assert_eq!(oswald.get_tasks().len(), 3);

    // the nested subtasks came through attached to their parents
    let root_like = {
        let mut r = Task::default();
        r.add_subtasks_vec(mock_store_tasks());
        r
    };
    assert_eq!(root_like.get_subtask_parent(3).expect("expected holder of 3").id, 0);
    assert_eq!(root_like.get_subtask_parent(4).expect("expected holder of 4").id, 2);
    assert_eq!(root_like.get_subtask_parent(5).expect("expected holder of 5").id, 2);
}

#[test]
fn test_get_loaded_tasks() {
    let mut oswald = Oswald::new();

    oswald.load(mock_store_tasks());

    let all = oswald.get_all_tasks();
    let mut itr = all.into_iter();

    assert_eq!(itr.next().expect("Expected  Task #1").id, 1);
    assert_eq!(itr.next().expect("Expected  Task #3").id, 3);
    assert_eq!(itr.next().expect("Expected  Task #4").id, 4);
    assert_eq!(itr.next().expect("Expected  Task #5").id, 5);
    assert_eq!(itr.next().expect("Expected  Task #0").id, 0);
    assert_eq!(itr.next().expect("Expected  Task #2").id, 2);
    assert_eq!(itr.next(), None);
}

#[test]
fn test_get_top_loaded_tasks() {
    let mut oswald = Oswald::new();

    oswald.load(mock_store_tasks());

    let tasks = oswald.get_tasks();
    let mut itr = tasks.into_iter();

    assert_eq!(itr.next().expect("Expected  Task #1").id, 1);
    assert_eq!(itr.next().expect("Expected  Task #0").id, 0);
    assert_eq!(itr.next().expect("Expected  Task #2").id, 2);
    assert_eq!(itr.next(), None);
}

#[test]
fn test_save_load_round_trip() {
    let mut oswald = Oswald::new();
    oswald.load(mock_store_tasks());

    // what save() hands to the storage collaborator: the top-level tasks
    let saved: Vec<Box<Task>> =
        oswald.get_tasks().into_iter().map(|t| Box::new(t.clone())).collect();

    let mut fresh = Oswald::new();
    fresh.load(saved);

    // the same top-level ids come back
    let mut before = top_ids(&oswald);
    let mut after = top_ids(&fresh);
    before.sort();
    after.sort();
    assert_eq!(before, after);

    // and the same nesting structure, in the same global order
    let original_all: Vec<u32> = oswald.get_all_tasks().iter().map(|t| t.id).collect();
    let reloaded_all: Vec<u32> = fresh.get_all_tasks().iter().map(|t| t.id).collect();
    assert_eq!(original_all, reloaded_all);
}
